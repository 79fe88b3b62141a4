//! The request and the page of the chat: what is cut out of a request, and
//! what is filled into the page.

use crate::scenario::UserData;
use vstd::prelude::*;
use vstd::string::*;

verus! {

/// `pat` stands in `s` at place `i`.
pub open spec fn stands_at(s: Seq<char>, pat: Seq<char>, i: int) -> bool {
    0 <= i && i + pat.len() <= s.len() && s.subrange(i, i + pat.len()) == pat
}

/// `pat` stands somewhere in `s`.
pub open spec fn occurs(s: Seq<char>, pat: Seq<char>) -> bool {
    exists|i: int| stands_at(s, pat, i)
}

/// The first place at which `pat` stands in `s`.
#[verifier::opaque]
pub open spec fn first_place(s: Seq<char>, pat: Seq<char>) -> int {
    choose|i: int| stands_at(s, pat, i) && forall|k: int| 0 <= k < i ==> !stands_at(s, pat, k)
}

/// `s` with `to` in place of `from`: what stands before the first place of
/// `from` stays, `to` follows, and what stands after that place is treated
/// alike. A place that reaches into the one before it is so passed over.
pub open spec fn replaced(s: Seq<char>, from: Seq<char>, to: Seq<char>) -> Seq<char>
    decreases s.len(),
{
    let i = first_place(s, from);
    if from.len() > 0 && stands_at(s, from, i) {
        s.subrange(0, i) + to + replaced(s.subrange(i + from.len(), s.len() as int), from, to)
    } else {
        s
    }
}

/// `str::starts_with` for a string pattern: whether `s` begins with
/// `prefix`.
#[verifier::external_body]
fn starts_with(s: &str, prefix: &str) -> (r: bool)
    ensures
        r == stands_at(s@, prefix@, 0),
{
    s.starts_with(prefix)
}

/// `before` and `after` are what stands in `s` before and after the first
/// place at which `pat` stands.
#[verifier::opaque]
pub open spec fn splits_first(
    s: Seq<char>,
    pat: Seq<char>,
    before: Seq<char>,
    after: Seq<char>,
) -> bool {
    s == before + pat + after && forall|k: int| 0 <= k < before.len() ==> !stands_at(s, pat, k)
}

/// `str::split_once` for a string pattern: the part of `s` before the first
/// place at which `pat` stands and the part after it, or `None` where `pat`
/// stands nowhere in `s`.
#[verifier::external_body]
fn split_once<'a>(s: &'a str, pat: &str) -> (r: Option<(&'a str, &'a str)>)
    ensures
        r is None <==> !occurs(s@, pat@),
        r matches Some(parts) ==> splits_first(s@, pat@, parts.0@, parts.1@),
{
    s.split_once(pat)
}

/// `str::replace` for a string pattern that is not empty: the matches of
/// `from` in `s` are found from left to right, each search starting where
/// the match before it ended, and `to` stands in the place of each.
#[verifier::external_body]
fn replace(s: &str, from: &str, to: &str) -> (r: String)
    requires
        from@.len() > 0,
    ensures
        r@ == replaced(s@, from@, to@),
{
    s.replace(from, to)
}

/// What is known of a user before the first message: nothing.
pub open spec fn is_blank(u: UserData) -> bool {
    u.sid@.len() == 0 && u.msg_in@.len() == 0 && u.msg_out@.len() == 0 && u.script@.len() == 0
}

/// The request is a posted form with its two marks in order: `sid=` first,
/// and `&msg_in=` not before its end.
pub open spec fn is_form(req: Seq<char>) -> bool {
    &&& occurs(req, "sid="@)
    &&& occurs(req, "&msg_in="@)
    &&& first_place(req, "sid="@) + 4 <= first_place(req, "&msg_in="@)
}

/// The session's identifier in a posted form: what stands between the two
/// marks.
pub open spec fn form_sid(req: Seq<char>) -> Seq<char> {
    req.subrange(first_place(req, "sid="@) + 4, first_place(req, "&msg_in="@))
}

/// The user's message in a posted form: all that stands after the second
/// mark.
pub open spec fn form_msg(req: Seq<char>) -> Seq<char> {
    req.subrange(first_place(req, "&msg_in="@) + 8, req.len() as int)
}

/// Before a place at which `pat` stands there is a first one.
proof fn lemma_least_place(s: Seq<char>, pat: Seq<char>, i: int)
    requires
        stands_at(s, pat, i),
    ensures
        exists|j: int| stands_at(s, pat, j) && forall|k: int| 0 <= k < j ==> !stands_at(s, pat, k),
    decreases i,
{
    if exists|k: int| 0 <= k < i && stands_at(s, pat, k) {
        let k = choose|k: int| 0 <= k < i && stands_at(s, pat, k);
        lemma_least_place(s, pat, k);
    } else {
        assert(stands_at(s, pat, i) && forall|k: int| 0 <= k < i ==> !stands_at(s, pat, k));
    }
}

/// Where `pat` stands in `s` at all, its first place is a place at which it
/// stands, and it stands at none before that.
pub proof fn lemma_occurs_first(s: Seq<char>, pat: Seq<char>)
    requires
        occurs(s, pat),
    ensures
        stands_at(s, pat, first_place(s, pat)),
        forall|k: int| 0 <= k < first_place(s, pat) ==> !stands_at(s, pat, k),
{
    reveal(first_place);
    let i = choose|i: int| stands_at(s, pat, i);
    lemma_least_place(s, pat, i);
}

/// A text in which `from` stands nowhere is left as it is.
pub proof fn lemma_replaced_absent(s: Seq<char>, from: Seq<char>, to: Seq<char>)
    requires
        !occurs(s, from),
    ensures
        replaced(s, from, to) == s,
{
}

/// A text in which `from` stands has `to` at the first place of `from`, what
/// came before that place before it, and after it the rest with `to` in
/// place of `from`.
pub proof fn lemma_replaced_first(s: Seq<char>, from: Seq<char>, to: Seq<char>)
    requires
        from.len() > 0,
        occurs(s, from),
    ensures
        replaced(s, from, to) == s.subrange(0, first_place(s, from)) + to + replaced(
            s.subrange(first_place(s, from) + from.len(), s.len() as int),
            from,
            to,
        ),
{
    lemma_occurs_first(s, from);
}

/// Where the first part of a split ends is the first place of the pattern.
proof fn lemma_first_place(s: Seq<char>, pat: Seq<char>, before: Seq<char>, after: Seq<char>)
    requires
        splits_first(s, pat, before, after),
    ensures
        occurs(s, pat),
        first_place(s, pat) == before.len(),
        s.len() == before.len() + pat.len() + after.len(),
        after == s.subrange((before.len() + pat.len()) as int, s.len() as int),
        forall|from: int|
            0 <= from <= before.len() ==> #[trigger] before.subrange(from, before.len() as int)
                == s.subrange(from, before.len() as int),
{
    reveal(splits_first);
    reveal(first_place);
    let at = before.len() as int;
    assert(s.subrange(at, at + pat.len()) =~= pat);
    assert(stands_at(s, pat, at));
    let i = first_place(s, pat);
    assert(stands_at(s, pat, i) && forall|k: int| 0 <= k < i ==> !stands_at(s, pat, k));
    if i < at {
        assert(!stands_at(s, pat, i));
    }
    if at < i {
        assert(!stands_at(s, pat, at));
    }
    assert(after =~= s.subrange((before.len() + pat.len()) as int, s.len() as int));
    assert forall|from: int| 0 <= from <= before.len() implies #[trigger] before.subrange(
        from,
        before.len() as int,
    ) == s.subrange(from, before.len() as int) by {
        assert(before.subrange(from, before.len() as int) =~= s.subrange(
            from,
            before.len() as int,
        ));
    }
}

/// Reads a request. A request that is no `POST` gives a blank user. A
/// posted form gives the session's identifier, which stands between the
/// marks `sid=` and `&msg_in=`, and the message, which is all after the
/// second mark. A `POST` that is no such form gives `None`.
pub fn parse_request(req: &str) -> (u: Option<UserData>)
    ensures
        !stands_at(req@, "POST /"@, 0) ==> u is Some && is_blank(u->0),
        stands_at(req@, "POST /"@, 0) ==> (u is Some <==> is_form(req@)),
        stands_at(req@, "POST /"@, 0) && u is Some ==> u->0.sid@ == form_sid(req@) && u->0.msg_in@
            == form_msg(req@) && u->0.msg_out@.len() == 0 && u->0.script@.len() == 0,
{
    proof {
        reveal_strlit("sid=");
        reveal_strlit("&msg_in=");
    }
    let mut udata = UserData {
        sid: String::new(),
        msg_in: String::new(),
        msg_out: String::new(),
        script: String::new(),
    };
    if !starts_with(req, "POST /") {
        return Some(udata);
    }
    let (before_sid, after_sid) = match split_once(req, "sid=") {
        Some(parts) => parts,
        None => {
            return None;
        },
    };
    let (before_msg, after_msg) = match split_once(req, "&msg_in=") {
        Some(parts) => parts,
        None => {
            return None;
        },
    };
    proof {
        lemma_first_place(req@, "sid="@, before_sid@, after_sid@);
        lemma_first_place(req@, "&msg_in="@, before_msg@, after_msg@);
    }
    let isid = before_sid.unicode_len();
    let imsg = before_msg.unicode_len();
    if imsg < 4 || isid > imsg - 4 {
        return None;
    }
    udata.sid = before_msg.substring_char(isid + 4, imsg).to_owned();
    udata.msg_in = after_msg.to_owned();
    Some(udata)
}

/// The page before it is filled in.
pub const HTML: &'static str = "
    <!DOCTYPE html>
    <html>
    <head>
        <meta charset=\"utf-8\">
    </head>
    <body>
        <div>
            {:msg_out}
        </div>
        <form id=\"form\" method=\"post\">
            <input name=\"sid\" type=\"hidden\" value=\"{:sid}\"/>
            <input name=\"msg_in\" type=\"text\" placeholder=\"type text and press Enter\" autofocus style=\"width: 50em\"/>
        </form>
        <script>
            {:script}
        </script>
    </body> 
    </html>
";

/// The page filled in: the session's identifier, then the reply, then the
/// script.
pub open spec fn filled(u: UserData) -> Seq<char> {
    replaced(
        replaced(replaced(HTML@, "{:sid}"@, u.sid@), "{:msg_out}"@, u.msg_out@),
        "{:script}"@,
        u.script@,
    )
}

/// The answer to a request: the status line, an empty line, and the page
/// with the session's identifier, the reply and the script filled in, in
/// that order.
pub fn render_page(udata: &UserData) -> (page: String)
    ensures
        page@ == "HTTP/1.1 200 OK\r\n\r\n"@ + filled(*udata),
{
    proof {
        reveal_strlit("{:sid}");
        reveal_strlit("{:msg_out}");
        reveal_strlit("{:script}");
    }
    let with_sid = replace(HTML, "{:sid}", udata.sid.as_str());
    let with_msg = replace(with_sid.as_str(), "{:msg_out}", udata.msg_out.as_str());
    let with_script = replace(with_msg.as_str(), "{:script}", udata.script.as_str());
    "HTTP/1.1 200 OK\r\n\r\n".to_owned().concat(with_script.as_str())
}

} // verus!
