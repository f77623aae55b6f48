//! What the web server decides: which of the embedded files answers a request, and what is
//! passed on to a client.
use crate::text;
use vstd::prelude::*;

verus! {

/// The media type that `mime_guess` finds for a path.
pub uninterp spec fn guessed_type(path: Seq<char>) -> Seq<char>;

/// A path that means the same on every system.
pub open spec fn portable(path: Seq<char>) -> bool {
    !path.contains('\\') && !path.contains(':')
}

/// Calls `mime_guess::from_path` and `MimeGuess::first_or_octet_stream`: the media type that
/// goes with the extension of a path, by a fixed table. What counts as the extension is a
/// matter of the system where a path is not portable, so nothing is said of such a path unless
/// it has no dot, and with it no extension. Of the table it is said only that HTML is HTML.
#[verifier::external_body]
fn media_type(path: &str) -> (r: String)
    ensures
        portable(path@) ==> r@ == guessed_type(path@),
        !path@.contains('.') ==> r@ == "application/octet-stream"@,
        path@ == "index.html"@ ==> r@ == "text/html"@,
{
    mime_guess::from_path(path).first_or_octet_stream().as_ref().to_string()
}

/// The file that a path asks for: the front page, where it asks for nothing else.
pub open spec fn asked_for(path: Seq<char>) -> Seq<char> {
    let rest = text::without_slashes(path);
    if rest.len() == 0 {
        "index.html"@
    } else {
        rest
    }
}

/// The file that a path asks for.
pub fn asset_name(path: &str) -> (r: &str)
    ensures
        r@ == asked_for(path@),
{
    let rest = text::trim_slashes(path);
    if rest.unicode_len() == 0 {
        "index.html"
    } else {
        rest
    }
}

/// A file to be sent, and its media type.
pub struct Served {
    pub name: String,
    pub media_type: String,
}

/// The answer to a request for a path, by whether the file that it asks for is there, and
/// whether the front page is: the file, else the front page, else nothing.
pub fn static_file(path: &str, found: bool, has_index: bool) -> (r: Option<Served>)
    ensures
        r is None <==> !found && !has_index,
        r is Some ==> {
            let name = if found {
                asked_for(path@)
            } else {
                "index.html"@
            };
            let t = r->0.media_type@;
            &&& r->0.name@ == name
            &&& portable(name) ==> t == guessed_type(name)
            &&& !name.contains('.') ==> t == "application/octet-stream"@
            &&& name == "index.html"@ ==> t == "text/html"@
        },
{
    let name = if found {
        asset_name(path)
    } else if has_index {
        "index.html"
    } else {
        return None;
    };
    Some(Served { name: name.to_owned(), media_type: media_type(name) })
}

/// What a client's subscription to events brings.
#[derive(Debug, Clone, Copy, PartialEq, Eq, Structural)]
pub enum Heard {
    /// An event.
    Event,
    /// Nothing: the client was too slow, and has missed some.
    Lagged,
    /// Nothing any more.
    Closed,
}

/// What is done about it.
#[derive(Debug, Clone, Copy, PartialEq, Eq, Structural)]
pub enum Relay {
    /// The event is sent.
    Send,
    /// The next one is waited for.
    Skip,
    /// The client is left.
    Stop,
}

/// What is done about what a subscription brings: a client that was too slow goes on with
/// what comes next.
pub fn relay(heard: Heard) -> (r: Relay)
    ensures
        r == match heard {
            Heard::Event => Relay::Send,
            Heard::Lagged => Relay::Skip,
            Heard::Closed => Relay::Stop,
        },
{
    match heard {
        Heard::Event => Relay::Send,
        Heard::Lagged => Relay::Skip,
        Heard::Closed => Relay::Stop,
    }
}

// ---------------------------------------------------------------- laws

/// The slashes that a path begins with make no difference.
pub proof fn leading_slashes_do_not_count(path: Seq<char>)
    ensures
        asked_for(seq!['/'] + path) == asked_for(path),
{
    let p = seq!['/'] + path;
    assert(p[0] == '/');
    assert(p.drop_first() =~= path);
}

/// What is asked for begins with no slash, and is never nothing.
pub proof fn asked_for_is_a_name(path: Seq<char>)
    ensures
        asked_for(path).len() > 0,
        asked_for(path)[0] != '/',
    decreases path.len(),
{
    reveal_strlit("index.html");
    if path.len() > 0 && path[0] == '/' {
        asked_for_is_a_name(path.drop_first());
    }
}

/// A path asks for what stands behind its first slashes, whatever that is; a path that is
/// nothing but slashes asks for the front page.
pub proof fn paths_ask_for_what_they_say(path: Seq<char>, k: int)
    requires
        0 <= k <= path.len(),
        forall|i: int| 0 <= i < k ==> #[trigger] path[i] == '/',
        k < path.len() ==> path[k] != '/',
    ensures
        k < path.len() ==> asked_for(path) == path.skip(k),
        k == path.len() ==> asked_for(path) == "index.html"@,
{
    text::slashes_are_taken_off(path, k);
}

/// A file that is there is what is sent for its path; where it is not, the front page is sent
/// instead, as HTML, and where that is not there either, nothing is.
pub proof fn front_page_stands_in(path: &str, found: bool, has_index: bool, r: Option<Served>)
    requires
        call_ensures(static_file, (path, found, has_index), r),
    ensures
        found ==> r is Some && r->0.name@ == asked_for(path@),
        !found && has_index ==> r is Some && r->0.name@ == "index.html"@ && r->0.media_type@
            == "text/html"@,
        !found && !has_index ==> r is None,
{
}

/// Events are sent on, missed ones are passed over, and the end is the end.
pub proof fn relaying_goes_on_until_the_end(heard: Heard, r: Relay)
    requires
        call_ensures(relay, (heard,), r),
    ensures
        r == Relay::Stop <==> heard == Heard::Closed,
        r == Relay::Send <==> heard == Heard::Event,
{
}

} // verus!
