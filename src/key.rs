use vstd::prelude::*;

verus! {

/// Whether `c` has the Unicode White_Space property: tab to carriage return,
/// space, next line, no-break space, ogham space mark, en quad to hair space,
/// line and paragraph separators, narrow no-break space, medium mathematical
/// space and ideographic space.
pub open spec fn whitespace_of(c: char) -> bool {
    let u = c as u32;
    (0x9 <= u <= 0xd) || u == 0x20 || u == 0x85 || u == 0xa0 || u == 0x1680 || (0x2000 <= u <= 0x200a)
        || u == 0x2028 || u == 0x2029 || u == 0x202f || u == 0x205f || u == 0x3000
}

/// Whether `c` is whitespace, as `char::is_whitespace` decides it.
fn is_whitespace(c: char) -> (r: bool)
    ensures
        r == whitespace_of(c),
{
    let u = c as u32;
    (0x9 <= u && u <= 0xd) || u == 0x20 || u == 0x85 || u == 0xa0 || u == 0x1680 || (0x2000 <= u && u
        <= 0x200a) || u == 0x2028 || u == 0x2029 || u == 0x202f || u == 0x205f || u == 0x3000
}

/// Relies on `String::push`: appends one character.
#[verifier::external_body]
fn push_char(s: &mut String, c: char)
    ensures
        final(s)@ == old(s)@.push(c),
{
    s.push(c);
}

/// The lower-case form of `s`, as Unicode defines it.
pub uninterp spec fn lower_of(s: Seq<char>) -> Seq<char>;

/// Relies on `str::to_lowercase`: the result depends on the characters alone.
#[verifier::external_body]
fn lowercase(s: &str) -> (r: String)
    ensures
        r@ == lower_of(s@),
{
    s.to_lowercase()
}

/// The canonical key of a name: whitespace removed, then lower-cased.
pub open spec fn key_of(name: Seq<char>) -> Seq<char> {
    lower_of(strip_whitespace(name))
}

/// The characters of `s` that are not whitespace, in order.
pub open spec fn strip_whitespace(s: Seq<char>) -> Seq<char> {
    s.filter(|c: char| !whitespace_of(c))
}

fn without_whitespace(name: &str) -> (r: String)
    ensures
        r@ == strip_whitespace(name@),
{
    let mut out = String::new();
    let n = name.unicode_len();
    let mut i: usize = 0;
    while i < n
        invariant
            n == name@.len(),
            i <= n,
            out@ == strip_whitespace(name@.subrange(0, i as int)),
        decreases n - i,
    {
        let c = name.get_char(i);
        proof {
            let s = name@.subrange(0, i as int + 1);
            assert(s.drop_last() =~= name@.subrange(0, i as int));
            reveal(Seq::filter);
        }
        if !is_whitespace(c) {
            push_char(&mut out, c);
        }
        i = i + 1;
    }
    assert(name@.subrange(0, n as int) =~= name@);
    out
}

/// Maps a human-readable name to its canonical storage key.
pub fn name_to_key(name: &str) -> (r: String)
    ensures
        r@ == key_of(name@),
{
    let stripped = without_whitespace(name);
    lowercase(stripped.as_str())
}

/// Removing whitespace twice is removing it once, and leaves no whitespace.
pub proof fn lemma_strip_whitespace_idempotent(s: Seq<char>)
    ensures
        strip_whitespace(strip_whitespace(s)) == strip_whitespace(s),
        forall|i: int|
            0 <= i < strip_whitespace(s).len() ==> !whitespace_of(#[trigger] strip_whitespace(s)[i]),
{
    broadcast use vstd::seq_lib::group_filter_ensures;
    let t = strip_whitespace(s);
    assert forall|i: int| 0 <= i < t.len() implies !whitespace_of(#[trigger] t[i]) by {
        assert(t.contains(t[i]));
    }
    lemma_filter_all_kept(t);
}

proof fn lemma_filter_all_kept(t: Seq<char>)
    requires
        forall|i: int| 0 <= i < t.len() ==> !whitespace_of(#[trigger] t[i]),
    ensures
        strip_whitespace(t) == t,
    decreases t.len(),
{
    reveal(Seq::filter);
    if t.len() > 0 {
        lemma_filter_all_kept(t.drop_last());
        assert(t.drop_last().push(t.last()) =~= t);
    } else {
        assert(strip_whitespace(t) =~= t);
    }
}

} // verus!
