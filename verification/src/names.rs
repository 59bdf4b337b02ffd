//! Names and queries: case folding of what a user typed, prefix and
//! substring tests, and the lexicographic order of names.

use vstd::prelude::*;
use vstd::string::*;

verus! {

/// What `str::to_uppercase` returns for a text: its Unicode upper-case form.
pub uninterp spec fn uppercase_of(s: Seq<char>) -> Seq<char>;

/// Calls `str::to_uppercase`. Its result is named by `uppercase_of`, a
/// function of the text alone; nothing more is stated of it.
#[verifier::external_body]
fn to_uppercase(s: &str) -> (r: String)
    ensures
        r@ == uppercase_of(s@),
{
    s.to_uppercase()
}

/// The key under which a name that a user typed is looked up: its upper-case form.
pub fn query_key(query: &str) -> (r: String)
    ensures
        r@ == uppercase_of(query@),
{
    to_uppercase(query)
}

/// The characters of a text.
pub fn chars_of(s: &str) -> (v: Vec<char>)
    ensures
        v@ == s@,
{
    let n = s.unicode_len();
    let mut v: Vec<char> = Vec::new();
    let mut i: usize = 0;
    while i < n
        invariant
            n == s@.len(),
            i <= n,
            v@ == s@.take(i as int),
        decreases n - i,
    {
        let c = s.get_char(i);
        v.push(c);
        proof {
            assert(v@ =~= s@.take(i + 1));
        }
        i = i + 1;
    }
    proof {
        assert(s@.take(n as int) =~= s@);
    }
    v
}

/// Whether `s` begins with `prefix`.
pub fn starts_with(s: &str, prefix: &str) -> (r: bool)
    ensures
        r == prefix@.is_prefix_of(s@),
{
    let a = chars_of(s);
    let b = chars_of(prefix);
    if b.len() > a.len() {
        return false;
    }
    let mut i: usize = 0;
    while i < b.len()
        invariant
            a@ == s@,
            b@ == prefix@,
            b.len() <= a.len(),
            i <= b.len(),
            forall|k: int| 0 <= k < i ==> a@[k] == b@[k],
        decreases b.len() - i,
    {
        if a[i] != b[i] {
            return false;
        }
        i = i + 1;
    }
    true
}

/// Whether `t` occurs in `s` at position `i`.
pub open spec fn occurs_at(s: Seq<char>, t: Seq<char>, i: int) -> bool {
    0 <= i && i + t.len() <= s.len() && s.subrange(i, i + t.len()) == t
}

/// Whether `t` occurs somewhere in `s`.
pub open spec fn has_infix(s: Seq<char>, t: Seq<char>) -> bool {
    exists|i: int| occurs_at(s, t, i)
}

/// Whether `t` occurs in `s`.
pub fn contains_text(s: &str, t: &str) -> (r: bool)
    ensures
        r == has_infix(s@, t@),
{
    let a = chars_of(s);
    let b = chars_of(t);
    if b.len() > a.len() {
        proof {
            assert forall|i: int| !occurs_at(s@, t@, i) by {}
        }
        return false;
    }
    let last = a.len() - b.len();
    let mut i: usize = 0;
    while i <= last
        invariant
            last == a.len() - b.len(),
            a@ == s@,
            b@ == t@,
            i <= last + 1,
            forall|k: int| 0 <= k < i ==> !occurs_at(s@, t@, k),
        decreases last + 1 - i,
    {
        let mut j: usize = 0;
        let mut same = true;
        while j < b.len()
            invariant
                i <= last,
                last == a.len() - b.len(),
                j <= b.len(),
                same == (forall|k: int| 0 <= k < j ==> a@[i + k] == b@[k]),
            decreases b.len() - j,
        {
            if a[i + j] != b[j] {
                same = false;
            }
            j = j + 1;
        }
        if same {
            proof {
                assert(a@.subrange(i as int, i + b@.len()) =~= b@);
                assert(occurs_at(s@, t@, i as int));
            }
            return true;
        }
        proof {
            let k = choose|k: int| 0 <= k < b.len() && a@[i + k] != b@[k];
            assert(a@.subrange(i as int, i + b@.len())[k] != b@[k]);
        }
        i = i + 1;
    }
    false
}

/// The lexicographic order of texts by code point: a proper prefix comes
/// first, otherwise the first differing character decides.
pub open spec fn text_lt(a: Seq<char>, b: Seq<char>) -> bool
    decreases a.len(),
{
    if a.len() == 0 {
        b.len() > 0
    } else if b.len() == 0 {
        false
    } else if a[0] != b[0] {
        (a[0] as u32) < (b[0] as u32)
    } else {
        text_lt(a.drop_first(), b.drop_first())
    }
}

/// `a` comes before `b`, or is equal to it.
pub open spec fn text_le(a: Seq<char>, b: Seq<char>) -> bool {
    text_lt(a, b) || a == b
}

/// The order of texts is irreflexive.
pub proof fn lemma_text_lt_irreflexive(a: Seq<char>)
    ensures
        !text_lt(a, a),
    decreases a.len(),
{
    if a.len() > 0 {
        lemma_text_lt_irreflexive(a.drop_first());
    }
}

/// The order of texts is transitive.
pub proof fn lemma_text_lt_transitive(a: Seq<char>, b: Seq<char>, c: Seq<char>)
    requires
        text_lt(a, b),
        text_lt(b, c),
    ensures
        text_lt(a, c),
    decreases a.len(),
{
    if a.len() > 0 && b.len() > 0 && c.len() > 0 && a[0] == b[0] && b[0] == c[0] {
        lemma_text_lt_transitive(a.drop_first(), b.drop_first(), c.drop_first());
    }
}

/// Any two different texts are ordered one way or the other.
pub proof fn lemma_text_lt_total(a: Seq<char>, b: Seq<char>)
    requires
        a != b,
    ensures
        text_lt(a, b) || text_lt(b, a),
    decreases a.len(),
{
    if a.len() > 0 && b.len() > 0 && a[0] == b[0] {
        if a.drop_first() == b.drop_first() {
            assert(a =~= seq![a[0]] + a.drop_first());
            assert(b =~= seq![b[0]] + b.drop_first());
        }
        lemma_text_lt_total(a.drop_first(), b.drop_first());
    } else if a.len() == 0 && b.len() == 0 {
        assert(a =~= b);
    } else if a.len() > 0 && b.len() > 0 {
        vstd::utf8::char_u32_cast(a[0], a[0] as u32);
        vstd::utf8::char_u32_cast(b[0], b[0] as u32);
    }
}

/// Whether `a` comes before `b`.
pub fn chars_lt(a: &Vec<char>, b: &Vec<char>) -> (r: bool)
    ensures
        r == text_lt(a@, b@),
{
    let mut i: usize = 0;
    proof {
        assert(a@.skip(0) =~= a@);
        assert(b@.skip(0) =~= b@);
    }
    while i < a.len() && i < b.len() && a[i] == b[i]
        invariant
            i <= a.len(),
            i <= b.len(),
            forall|k: int| 0 <= k < i ==> a@[k] == b@[k],
            text_lt(a@, b@) == text_lt(a@.skip(i as int), b@.skip(i as int)),
        decreases a.len() - i,
    {
        proof {
            assert(a@.skip(i as int).drop_first() =~= a@.skip(i + 1));
            assert(b@.skip(i as int).drop_first() =~= b@.skip(i + 1));
        }
        i = i + 1;
    }
    proof {
        if i < a.len() {
            assert(a@.skip(i as int)[0] == a@[i as int]);
        }
        if i < b.len() {
            assert(b@.skip(i as int)[0] == b@[i as int]);
        }
    }
    if i == a.len() {
        i < b.len()
    } else if i == b.len() {
        false
    } else {
        (a[i] as u32) < (b[i] as u32)
    }
}

/// Whether the text `a` comes before the text `b`.
pub fn str_lt(a: &str, b: &str) -> (r: bool)
    ensures
        r == text_lt(a@, b@),
{
    let x = chars_of(a);
    let y = chars_of(b);
    chars_lt(&x, &y)
}

} // verus!
