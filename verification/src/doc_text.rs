//! Cleanup of doc comments extracted from Move source: continuation lines
//! are unindented by one space and surrounding whitespace is trimmed.

use crate::text::push_char;
use vstd::prelude::*;

verus! {

/// A whitespace character, as the Unicode `White_Space` property has it.
pub open spec fn is_doc_ws(c: char) -> bool {
    (9 <= c as u32 && c as u32 <= 13) || c as u32 == 0x20 || c as u32 == 0x85 || c as u32 == 0xA0
        || c as u32 == 0x1680 || (0x2000 <= c as u32 && c as u32 <= 0x200A) || c as u32 == 0x2028
        || c as u32 == 0x2029 || c as u32 == 0x202F || c as u32 == 0x205F || c as u32 == 0x3000
}

/// The text with every newline-then-space pair, left to right, replaced by
/// the bare newline.
pub open spec fn unindent(s: Seq<char>) -> Seq<char>
    decreases s.len(),
{
    if s.len() == 0 {
        Seq::empty()
    } else if s.len() >= 2 && s[0] == '\n' && s[1] == ' ' {
        seq!['\n'] + unindent(s.skip(2))
    } else {
        seq![s[0]] + unindent(s.skip(1))
    }
}

/// The text without its leading whitespace.
pub open spec fn trim_start(s: Seq<char>) -> Seq<char>
    decreases s.len(),
{
    if s.len() > 0 && is_doc_ws(s[0]) {
        trim_start(s.skip(1))
    } else {
        s
    }
}

/// The text without its trailing whitespace.
pub open spec fn trim_end(s: Seq<char>) -> Seq<char>
    decreases s.len(),
{
    if s.len() > 0 && is_doc_ws(s.last()) {
        trim_end(s.drop_last())
    } else {
        s
    }
}

/// The text without leading and trailing whitespace.
pub open spec fn trimmed(s: Seq<char>) -> Seq<char> {
    trim_end(trim_start(s))
}

/// Leading whitespace up to a first non-whitespace position `a` is all that
/// `trim_start` drops.
proof fn lemma_trim_start_skip(s: Seq<char>, a: int)
    requires
        0 <= a <= s.len(),
        forall|j: int| 0 <= j < a ==> is_doc_ws(#[trigger] s[j]),
        a == s.len() || !is_doc_ws(s[a]),
    ensures
        trim_start(s) == s.skip(a),
    decreases a,
{
    if a == 0 {
        assert(s.skip(0) =~= s);
    } else {
        assert(is_doc_ws(s[0]));
        let t = s.skip(1);
        assert forall|j: int| 0 <= j < a - 1 implies is_doc_ws(#[trigger] t[j]) by {
            assert(t[j] == s[j + 1]);
        }
        assert(a - 1 == t.len() || !is_doc_ws(t[a - 1]));
        lemma_trim_start_skip(t, a - 1);
        assert(t.skip(a - 1) =~= s.skip(a));
    }
}

/// Trailing whitespace from a last non-whitespace position `b` on is all
/// that `trim_end` drops.
proof fn lemma_trim_end_take(s: Seq<char>, b: int)
    requires
        0 <= b <= s.len(),
        forall|j: int| b <= j < s.len() ==> is_doc_ws(#[trigger] s[j]),
        b == 0 || !is_doc_ws(s[b - 1]),
    ensures
        trim_end(s) == s.take(b),
    decreases s.len() - b,
{
    if b == s.len() {
        if s.len() > 0 {
            assert(!is_doc_ws(s.last()));
        }
        assert(s.take(b) =~= s);
    } else {
        assert(is_doc_ws(s.last()));
        let t = s.drop_last();
        assert forall|j: int| b <= j < t.len() implies is_doc_ws(#[trigger] t[j]) by {
            assert(t[j] == s[j]);
        }
        lemma_trim_end_take(t, b);
        assert(t.take(b) =~= s.take(b));
    }
}

/// A whitespace character, as the Unicode `White_Space` property has it.
pub fn is_doc_ws_char(c: char) -> (r: bool)
    ensures
        r == is_doc_ws(c),
{
    let u: u32 = c as u32;
    (9 <= u && u <= 13) || u == 0x20 || u == 0x85 || u == 0xA0 || u == 0x1680 || (0x2000 <= u && u
        <= 0x200A) || u == 0x2028 || u == 0x2029 || u == 0x202F || u == 0x205F || u == 0x3000
}

/// Clean up one doc comment: unindent continuation lines by one space and
/// trim surrounding whitespace.
pub fn prepare_doc_string(doc: &str) -> (r: String)
    ensures
        r@ == trimmed(unindent(doc@)),
{
    let n: usize = doc.unicode_len();
    let mut u: String = String::new();
    let mut i: usize = 0;
    proof {
        assert(doc@.skip(0) =~= doc@);
    }
    while i < n
        invariant
            0 <= i <= n,
            n == doc@.len(),
            u@ + unindent(doc@.skip(i as int)) == unindent(doc@),
        decreases n - i,
    {
        let c: char = doc.get_char(i);
        let ghost rest = doc@.skip(i as int);
        if c == '\n' && i + 1 < n && doc.get_char(i + 1) == ' ' {
            push_char(&mut u, '\n');
            proof {
                assert(rest[0] == '\n' && rest[1] == ' ');
                assert(rest.skip(2) =~= doc@.skip(i + 2));
                assert(unindent(rest) == seq!['\n'] + unindent(doc@.skip(i + 2)));
                assert(u@ + unindent(doc@.skip(i + 2)) =~= unindent(doc@));
            }
            i = i + 2;
        } else {
            push_char(&mut u, c);
            proof {
                assert(rest[0] == c);
                assert(rest.skip(1) =~= doc@.skip(i + 1));
                assert(unindent(rest) == seq![c] + unindent(doc@.skip(i + 1)));
                assert(u@ + unindent(doc@.skip(i + 1)) =~= unindent(doc@));
            }
            i = i + 1;
        }
    }
    proof {
        assert(doc@.skip(n as int) =~= Seq::<char>::empty());
        assert(unindent(Seq::<char>::empty()) =~= Seq::<char>::empty());
        assert(u@ =~= unindent(doc@));
    }
    let m: usize = u.as_str().unicode_len();
    let mut a: usize = 0;
    while a < m && is_doc_ws_char(u.as_str().get_char(a))
        invariant
            0 <= a <= m,
            m == u@.len(),
            forall|j: int| 0 <= j < a ==> is_doc_ws(#[trigger] u@[j]),
        decreases m - a,
    {
        a = a + 1;
    }
    let mut b: usize = m;
    while b > a && is_doc_ws_char(u.as_str().get_char(b - 1))
        invariant
            a <= b <= m,
            m == u@.len(),
            forall|j: int| b <= j < m ==> is_doc_ws(#[trigger] u@[j]),
        decreases b,
    {
        b = b - 1;
    }
    let out: &str = u.as_str().substring_char(a, b);
    proof {
        lemma_trim_start_skip(u@, a as int);
        let t = u@.skip(a as int);
        assert forall|j: int| b - a <= j < t.len() implies is_doc_ws(#[trigger] t[j]) by {
            assert(t[j] == u@[j + a]);
        }
        if b > a {
            assert(!is_doc_ws(t[b - a - 1]));
        }
        lemma_trim_end_take(t, b - a);
        assert(t.take(b - a) =~= u@.subrange(a as int, b as int));
        assert(out@ == trimmed(unindent(doc@)));
    }
    out.to_owned()
}

} // verus!
