use vstd::prelude::*;

verus! {

/// Whether `char::is_alphanumeric` holds of `c` (Unicode's Alphabetic or Numeric property).
pub uninterp spec fn alphanumeric_char(c: char) -> bool;

/// Whether `c` has Unicode's White_Space property, as `char::is_whitespace` tests: tab to
/// carriage return, space, next line, no-break space, ogham space mark, the spaces from en
/// quad to hair space, line and paragraph separator, narrow no-break space, medium
/// mathematical space and ideographic space.
pub open spec fn whitespace_char(c: char) -> bool {
    let u = c as u32;
    ||| 0x09 <= u <= 0x0D
    ||| u == 0x20
    ||| u == 0x85
    ||| u == 0xA0
    ||| u == 0x1680
    ||| 0x2000 <= u <= 0x200A
    ||| u == 0x2028
    ||| u == 0x2029
    ||| u == 0x202F
    ||| u == 0x205F
    ||| u == 0x3000
}

/// What `str::to_lowercase` makes of the characters `s` (Unicode's lowercase mapping).
pub uninterp spec fn lowercase(s: Seq<char>) -> Seq<char>;

/// `char::is_alphanumeric`: its result is named `alphanumeric_char`, a property of the
/// character alone; which characters have it is Unicode's table and is not written out here.
#[verifier::external_body]
fn is_alphanumeric(c: char) -> (b: bool)
    ensures
        b == alphanumeric_char(c),
{
    c.is_alphanumeric()
}

/// Whether `c` is white space in Unicode's sense (`char::is_whitespace`).
pub fn is_whitespace(c: char) -> (b: bool)
    ensures
        b == whitespace_char(c),
{
    let u = c as u32;
    (0x09 <= u && u <= 0x0D) || u == 0x20 || u == 0x85 || u == 0xA0 || u == 0x1680 || (0x2000 <= u && u
        <= 0x200A) || u == 0x2028 || u == 0x2029 || u == 0x202F || u == 0x205F || u == 0x3000
}

/// `str::to_lowercase`: the result's characters are named `lowercase` of the argument's;
/// the mapping (which may change the length) is Unicode's and is not written out here.
#[verifier::external_body]
fn to_lowercase(s: &str) -> (r: String)
    ensures
        r@ == lowercase(s@),
{
    s.to_lowercase()
}

/// `String::push`: appends one character.
#[verifier::external_body]
pub(crate) fn push_char(s: &mut String, c: char)
    ensures
        final(s)@ == old(s)@.push(c),
{
    s.push(c)
}

/// `s` without a trailing `'s`, or else without a trailing right single quotation mark.
pub open spec fn without_possessive(s: Seq<char>) -> Seq<char> {
    if s.len() >= 2 && s[s.len() - 2] == '\'' && s[s.len() - 1] == 's' {
        s.take(s.len() - 2)
    } else if s.len() >= 1 && s[s.len() - 1] == '\u{2019}' {
        s.take(s.len() - 1)
    } else {
        s
    }
}

/// A character kept in a name: a letter or digit, white space, or a hyphen.
pub open spec fn name_char(c: char) -> bool {
    alphanumeric_char(c) || whitespace_char(c) || c == '-'
}

/// The words of `t` (its maximal runs of non-white-space characters), joined by single
/// hyphens.
pub open spec fn dashed_words(t: Seq<char>) -> Seq<char>
    decreases t.len(),
{
    if t.len() == 0 {
        Seq::empty()
    } else {
        let c = t.last();
        let prev = t.drop_last();
        let d = dashed_words(prev);
        if whitespace_char(c) {
            d
        } else if prev.len() > 0 && whitespace_char(prev.last()) && d.len() > 0 {
            d + seq!['-', c]
        } else {
            d.push(c)
        }
    }
}

/// The canonical form of a display name: possessive ending dropped, characters other than
/// letters, digits, white space and hyphens dropped, words joined by hyphens, lower case.
pub open spec fn normalized_name(s: Seq<char>) -> Seq<char> {
    lowercase(dashed_words(without_possessive(s).filter(|c: char| name_char(c))))
}

/// The length of `name` once a trailing `'s` or right single quotation mark is dropped.
fn stem_len(name: &str) -> (n: usize)
    ensures
        n <= name@.len(),
        name@.take(n as int) == without_possessive(name@),
{
    let len = name.unicode_len();
    if len >= 2 && name.get_char(len - 2) == '\'' && name.get_char(len - 1) == 's' {
        len - 2
    } else if len >= 1 && name.get_char(len - 1) == '\u{2019}' {
        len - 1
    } else {
        assert(name@.take(len as int) =~= name@);
        len
    }
}

/// Canonical form of a display name, used to look strategies up by name: "Kruskal's"
/// becomes "kruskal", "Aldous-Broder" becomes "aldous-broder", "Flood Fill" becomes
/// "flood-fill".
pub fn normalize_name(name: &str) -> (r: String)
    ensures
        r@ == normalized_name(name@),
{
    let end = stem_len(name);
    let ghost s = without_possessive(name@);
    let ghost pred = |c: char| name_char(c);
    let mut out = String::new();
    let mut pending = false;
    let mut started = false;
    let mut i: usize = 0;
    while i < end
        invariant
            i <= end,
            end <= name@.len(),
            s == name@.take(end as int),
            pred == (|c: char| name_char(c)),
            out@ == dashed_words(s.take(i as int).filter(pred)),
            started == (out@.len() > 0),
            pending == (s.take(i as int).filter(pred).len() > 0 && whitespace_char(
                s.take(i as int).filter(pred).last(),
            )),
        decreases end - i,
    {
        let c = name.get_char(i);
        let ghost before = s.take(i as int);
        proof {
            assert(s.take(i + 1).drop_last() =~= before);
            assert(s.take(i + 1).last() == c);
            reveal(Seq::filter);
        }
        let ws = is_whitespace(c);
        if is_alphanumeric(c) || ws || c == '-' {
            let ghost f = before.filter(pred);
            proof {
                assert(pred(c));
                assert(s.take(i + 1).filter(pred) == f.push(c));
                assert(f.push(c).drop_last() =~= f);
            }
            if ws {
                pending = true;
            } else {
                if pending && started {
                    push_char(&mut out, '-');
                    push_char(&mut out, c);
                    assert(out@ =~= dashed_words(f) + seq!['-', c]);
                } else {
                    push_char(&mut out, c);
                }
                pending = false;
                started = true;
            }
        } else {
            proof {
                assert(!pred(c));
                assert(s.take(i + 1).filter(pred) == before.filter(pred));
            }
        }
        i = i + 1;
    }
    proof {
        assert(s.take(end as int) =~= s);
    }
    to_lowercase(out.as_str())
}

} // verus!
