use vstd::prelude::*;
use crate::sorting::Entry;

verus! {

/// The Unicode lowercasing of a character sequence, exactly as
/// `str::to_lowercase` computes it: a function of the characters alone,
/// named here rather than spelled out.
pub uninterp spec fn lower_of(s: Seq<char>) -> Seq<char>;

/// Relies on `str::to_lowercase`: the result is the Unicode lowercasing of
/// the input, a function of the characters alone; an empty string stays
/// empty.
#[verifier::external_body]
pub(crate) fn to_lowercase_string(s: &String) -> (r: String)
    ensures
        r@ == lower_of(s@),
        s@.len() == 0 ==> r@.len() == 0,
{
    s.to_lowercase()
}

/// Relies on `str::chars` (collected into a vector): the characters of the
/// string in order, which are exactly the string's abstract value.
#[verifier::external_body]
pub(crate) fn chars_of(s: &String) -> (r: Vec<char>)
    ensures
        r@ == s@,
{
    s.chars().collect()
}

/// Relies on `String::push`: appends the character.
#[verifier::external_body]
pub(crate) fn push_char(s: &mut String, c: char)
    ensures
        final(s)@ == old(s)@.push(c),
{
    s.push(c);
}

/// Relies on `String::pop`: removes and returns the last character, or
/// leaves an empty string alone.
#[verifier::external_body]
pub(crate) fn pop_char(s: &mut String) -> (r: Option<char>)
    ensures
        old(s)@.len() == 0 ==> *final(s) == *old(s) && r is None,
        old(s)@.len() > 0 ==> final(s)@ == old(s)@.drop_last() && r == Some(old(s)@.last()),
{
    s.pop()
}

/// `needle` occurs as a contiguous run inside `hay`. The empty needle
/// occurs in everything.
pub open spec fn contains_seq(hay: Seq<char>, needle: Seq<char>) -> bool {
    exists|k: int|
        0 <= k <= hay.len() - needle.len() && #[trigger] hay.subrange(k, k + needle.len())
            == needle
}

/// The case-insensitive filter: an empty term lets every name through;
/// otherwise the lowercased term must occur inside the lowercased name.
pub open spec fn item_matches(term: Seq<char>, name: Seq<char>) -> bool {
    term.len() == 0 || contains_seq(lower_of(name), lower_of(term))
}

/// The filter on displayed entries induced by a term: an entry stays when
/// its task's name matches.
pub open spec fn visible_pred(term: Seq<char>) -> spec_fn(Entry) -> bool {
    |e: Entry| item_matches(term, e.1.name@)
}

/// A needle without characters occurs in every haystack.
proof fn lemma_contains_trivial(hay: Seq<char>, needle: Seq<char>)
    requires
        needle.len() == 0,
    ensures
        contains_seq(hay, needle),
{
    assert(hay.subrange(0, 0 + needle.len() as int) =~= needle);
}

/// Whether `needle` stands at position `k` of `hay`.
fn match_at(hay: &Vec<char>, needle: &Vec<char>, k: usize) -> (r: bool)
    requires
        k + needle@.len() <= hay@.len(),
    ensures
        r == (hay@.subrange(k as int, k as int + needle@.len() as int) == needle@),
{
    let ghost window = hay@.subrange(k as int, k as int + needle@.len() as int);
    let hay_len: usize = hay.len();
    let needle_len: usize = needle.len();
    let mut m: usize = 0;
    while m < needle_len
        invariant
            m <= needle_len,
            hay_len == hay@.len(),
            needle_len == needle@.len(),
            k + needle_len <= hay_len,
            window == hay@.subrange(k as int, k as int + needle@.len() as int),
            forall|t: int| 0 <= t < m ==> hay@[k + t] == needle@[t],
        decreases needle_len - m,
    {
        if hay[k + m] != needle[m] {
            proof {
                assert(window[m as int] == hay@[k + m]);
                assert(window != needle@);
            }
            return false;
        }
        m += 1;
    }
    proof {
        assert(window =~= needle@);
    }
    true
}

/// Whether `needle` occurs anywhere inside `hay`, decided executably.
fn contains_chars(hay: &Vec<char>, needle: &Vec<char>) -> (r: bool)
    ensures
        r == contains_seq(hay@, needle@),
{
    if needle.len() > hay.len() {
        return false;
    }
    if needle.len() == 0 {
        proof {
            assert(hay@.subrange(0, 0 + needle@.len() as int) =~= needle@);
            assert(contains_seq(hay@, needle@));
        }
        return true;
    }
    let last: usize = hay.len() - needle.len();
    let mut k: usize = 0;
    while k <= last
        invariant
            1 <= needle@.len() <= hay@.len(),
            hay@.len() <= usize::MAX,
            last == hay@.len() - needle@.len(),
            k <= last + 1,
            forall|t: int|
                0 <= t < k ==> #[trigger] hay@.subrange(t, t + needle@.len()) != needle@,
        decreases last + 1 - k,
    {
        if match_at(hay, needle, k) {
            return true;
        }
        k += 1;
    }
    false
}

/// The filter applied to one name: true exactly when the (possibly empty)
/// term matches the name case-insensitively.
pub fn name_matches(name: &String, term: &String) -> (r: bool)
    ensures
        r == item_matches(term@, name@),
{
    let term_lower = to_lowercase_string(term);
    let term_chars = chars_of(&term_lower);
    let name_lower = to_lowercase_string(name);
    let name_chars = chars_of(&name_lower);
    let found = contains_chars(&name_chars, &term_chars);
    proof {
        if term@.len() == 0 {
            lemma_contains_trivial(lower_of(name@), lower_of(term@));
        }
    }
    found
}

/// With an empty filter term, filtering the displayed entries keeps every
/// one of them.
pub proof fn lemma_empty_filter_all_visible(s: Seq<Entry>)
    ensures
        s.filter(visible_pred(Seq::<char>::empty())) == s,
    decreases s.len(),
{
    broadcast use vstd::prelude::Seq::lemma_filter_push;

    let pred = visible_pred(Seq::<char>::empty());
    if s.len() == 0 {
        assert(s.filter(pred) =~= s);
    } else {
        let head = s.drop_last();
        lemma_empty_filter_all_visible(head);
        assert(s =~= head.push(s.last()));
        assert(pred(s.last()));
        assert(head.push(s.last()).filter(pred) == head.filter(pred).push(s.last()));
    }
}

} // verus!
