//! Operations on names: equality, ordering, affixes and the mapping that makes
//! an identifier safe to use as a directory name.

use vstd::prelude::*;
use vstd::std_specs::iter::IteratorSpec;

verus! {

/// Outcome of comparing two names.
#[derive(Clone, Copy, Debug, PartialEq, Eq, Structural)]
pub enum NameOrder {
    Before,
    Same,
    After,
}

/// `a` sorts strictly before `b`: at the first position where they differ,
/// `a` has ended or holds the smaller character.
pub open spec fn precedes(a: Seq<char>, b: Seq<char>) -> bool {
    exists|i: int|
        0 <= i <= a.len() && i < b.len() && #[trigger] a.take(i) == b.take(i) && (i < a.len()
            ==> a[i] < b[i])
}

/// The order of two names as a value.
pub open spec fn name_order(a: Seq<char>, b: Seq<char>) -> NameOrder {
    if a == b {
        NameOrder::Same
    } else if precedes(a, b) {
        NameOrder::Before
    } else {
        NameOrder::After
    }
}

/// Two names are equal, or one of them sorts before the other, never both.
pub proof fn lemma_order_total(a: Seq<char>, b: Seq<char>)
    ensures
        a == b || precedes(a, b) || precedes(b, a),
        !(precedes(a, b) && precedes(b, a)),
        !(a == b && precedes(a, b)),
{
    if precedes(a, b) {
        let i = choose|i: int|
            0 <= i <= a.len() && i < b.len() && #[trigger] a.take(i) == b.take(i) && (i < a.len()
                ==> a[i] < b[i]);
        if a == b {
            assert(i < a.len());
        }
        if precedes(b, a) {
            let j = choose|j: int|
                0 <= j <= b.len() && j < a.len() && #[trigger] b.take(j) == a.take(j) && (j
                    < b.len() ==> b[j] < a[j]);
            if i < j {
                assert(b.take(j)[i] == a.take(j)[i]);
            } else if j < i {
                assert(a.take(i)[j] == b.take(i)[j]);
            }
        }
    }
    if a != b && !precedes(a, b) && !precedes(b, a) {
        assert(a.take(0) =~= b.take(0));
        lemma_first_difference(a, b, 0);
    }
}

/// The order of names is transitive.
pub proof fn lemma_precedes_transitive(a: Seq<char>, b: Seq<char>, c: Seq<char>)
    requires
        precedes(a, b),
        precedes(b, c),
    ensures
        precedes(a, c),
{
    let i = choose|i: int|
        0 <= i <= a.len() && i < b.len() && #[trigger] a.take(i) == b.take(i) && (i < a.len()
            ==> a[i] < b[i]);
    let j = choose|j: int|
        0 <= j <= b.len() && j < c.len() && #[trigger] b.take(j) == c.take(j) && (j < b.len()
            ==> b[j] < c[j]);
    let k = if i <= j {
        i
    } else {
        j
    };
    assert(a.take(k) =~= c.take(k)) by {
        assert forall|n: int| 0 <= n < k implies a[n] == c[n] by {
            assert(a.take(i)[n] == b.take(i)[n]);
            assert(b.take(j)[n] == c.take(j)[n]);
        }
    }
    if i < j {
        assert(b.take(j)[i] == c.take(j)[i]);
    } else if j < i {
        assert(a.take(i)[j] == b.take(i)[j]);
    }
    assert(k <= a.len() && k < c.len() && (k < a.len() ==> a[k] < c[k]));
}

/// Comparing two names one way round gives the reverse of comparing them
/// the other way round.
pub proof fn lemma_name_order_reverses(a: Seq<char>, b: Seq<char>)
    ensures
        name_order(a, b) == NameOrder::Same <==> a == b,
        name_order(a, b) == NameOrder::Before <==> name_order(b, a) == NameOrder::After,
        name_order(a, b) == NameOrder::After <==> precedes(b, a),
{
    lemma_order_total(a, b);
    lemma_order_total(b, a);
}

/// Names that agree up to `from` and are not equal differ at a first position
/// at or after it, and are ordered by what they hold there.
proof fn lemma_first_difference(a: Seq<char>, b: Seq<char>, from: int)
    requires
        0 <= from <= a.len(),
        from <= b.len(),
        a.take(from) == b.take(from),
        a != b,
    ensures
        precedes(a, b) || precedes(b, a),
    decreases a.len() - from,
{
    if from == a.len() {
        if from == b.len() {
            assert(a.take(from) == a);
            assert(b.take(from) == b);
        } else {
            assert(precedes(a, b));
        }
    } else if from == b.len() {
        assert(b.take(from) == a.take(from));
        assert(precedes(b, a));
    } else if a[from] < b[from] {
        assert(precedes(a, b));
    } else if b[from] < a[from] {
        assert(b.take(from) == a.take(from));
        assert(precedes(b, a));
    } else {
        assert(a.take(from + 1) == a.take(from).push(a[from]));
        assert(b.take(from + 1) == b.take(from).push(b[from]));
        lemma_first_difference(a, b, from + 1);
    }
}

/// Whether two strings hold the same characters.
pub fn same_text(a: &str, b: &str) -> (same: bool)
    ensures
        same == (a@ == b@),
{
    match compare_names(a, b) {
        NameOrder::Same => true,
        _ => false,
    }
}

/// Compares two names character by character, the smaller code point first and
/// a proper prefix before its extensions.
pub fn compare_names(a: &str, b: &str) -> (order: NameOrder)
    ensures
        order == name_order(a@, b@),
{
    let mut left = a.chars();
    let mut right = b.chars();
    let ghost mut pos: int = 0;
    loop
        invariant
            0 <= pos <= a@.len(),
            pos <= b@.len(),
            left.remaining() == a@.skip(pos),
            right.remaining() == b@.skip(pos),
            a@.take(pos) == b@.take(pos),
            left.obeys_prophetic_iter_laws(),
            right.obeys_prophetic_iter_laws(),
            left.decrease() is Some,
        decreases left.decrease()->0,
    {
        let x = left.next();
        let y = right.next();
        proof {
            lemma_order_total(a@, b@);
        }
        match (x, y) {
            (None, None) => {
                assert(a@.take(pos) == a@);
                assert(b@.take(pos) == b@);
                return NameOrder::Same;
            },
            (None, Some(_)) => {
                assert(precedes(a@, b@));
                return NameOrder::Before;
            },
            (Some(_), None) => {
                assert(b@.take(pos) == a@.take(pos));
                assert(precedes(b@, a@));
                return NameOrder::After;
            },
            (Some(c), Some(d)) => {
                assert(c == a@[pos] && d == b@[pos]);
                if c < d {
                    assert(precedes(a@, b@));
                    return NameOrder::Before;
                }
                if d < c {
                    assert(b@.take(pos) == a@.take(pos));
                    assert(precedes(b@, a@));
                    return NameOrder::After;
                }
                proof {
                    assert(a@.take(pos + 1) == a@.take(pos).push(a@[pos]));
                    assert(b@.take(pos + 1) == b@.take(pos).push(b@[pos]));
                    pos = pos + 1;
                }
            },
        }
    }
}

/// Characters that a directory name cannot hold on every filesystem.
pub open spec fn is_unsafe_in_file_name(c: char) -> bool {
    c == '?' || c == '"' || c == '/' || c == '\\' || c == '*' || c == '<' || c == '>' || c == ':'
        || c == '|' || c == '^'
}

/// The character that stands for `c` in a directory name.
pub open spec fn safe_char(c: char) -> char {
    if is_unsafe_in_file_name(c) {
        '_'
    } else {
        c
    }
}

/// The directory name that stands for an identifier: the same characters,
/// with `_` in place of each that a file name cannot hold.
pub open spec fn safe_name(text: Seq<char>) -> Seq<char> {
    text.map_values(|c: char| safe_char(c))
}

/// A name made safe holds no unsafe character, and making it safe again
/// changes nothing.
pub proof fn lemma_safe_name_is_safe(text: Seq<char>)
    ensures
        safe_name(text).len() == text.len(),
        forall|i: int|
            0 <= i < text.len() ==> !is_unsafe_in_file_name(#[trigger] safe_name(text)[i]),
        safe_name(safe_name(text)) == safe_name(text),
{
    assert(safe_name(safe_name(text)) =~= safe_name(text));
}

/// Appends one character with `String::push`, which adds it at the end and
/// leaves what was there.
#[verifier::external_body]
fn push_char(text: &mut String, c: char)
    ensures
        final(text)@ == old(text)@.push(c),
{
    text.push(c)
}

/// Makes an identifier safe for use as a directory name.
pub fn make_filename_safe(text: &str) -> (safe: String)
    ensures
        safe@ == safe_name(text@),
{
    let mut safe = String::new();
    let mut chars = text.chars();
    let ghost mut pos: int = 0;
    loop
        invariant
            0 <= pos <= text@.len(),
            chars.remaining() == text@.skip(pos),
            safe@ == safe_name(text@.take(pos)),
            chars.obeys_prophetic_iter_laws(),
            chars.decrease() is Some,
        decreases chars.decrease()->0,
    {
        match chars.next() {
            None => {
                assert(text@.take(pos) == text@);
                return safe;
            },
            Some(c) => {
                assert(c == text@[pos]);
                let kept = match c {
                    '?' | '"' | '/' | '\\' | '*' | '<' | '>' | ':' | '|' | '^' => '_',
                    _ => c,
                };
                push_char(&mut safe, kept);
                proof {
                    assert(text@.take(pos + 1) == text@.take(pos).push(c));
                    assert(safe_name(text@.take(pos + 1)) == safe_name(text@.take(pos)).push(
                        safe_char(c),
                    ));
                    pos = pos + 1;
                }
            },
        }
    }
}

/// What is left of `name` once `prefix` is taken from its start and `suffix`
/// from the end of the rest; `None` where one of them is not there.
pub open spec fn stripped(name: Seq<char>, prefix: Seq<char>, suffix: Seq<char>) -> Option<
    Seq<char>,
> {
    if prefix.len() + suffix.len() <= name.len() && name.take(prefix.len() as int) == prefix
        && name.skip(name.len() - suffix.len()) == suffix {
        Some(name.subrange(prefix.len() as int, name.len() - suffix.len()))
    } else {
        None
    }
}

/// Takes `prefix` and `suffix` off a name.
pub fn strip_affixes<'a>(name: &'a str, prefix: &str, suffix: &str) -> (middle: Option<&'a str>)
    ensures
        match middle {
            Some(m) => stripped(name@, prefix@, suffix@) == Some(m@),
            None => stripped(name@, prefix@, suffix@) is None,
        },
{
    let n = name.unicode_len();
    let p = prefix.unicode_len();
    let s = suffix.unicode_len();
    if n < p || n - p < s {
        return None;
    }
    let head = name.substring_char(0, p);
    let tail = name.substring_char(n - s, n);
    assert(name@.take(p as int) == name@.subrange(0, p as int));
    assert(name@.skip(n - s) == name@.subrange(n - s, n as int));
    if same_text(head, prefix) && same_text(tail, suffix) {
        Some(name.substring_char(p, n - s))
    } else {
        None
    }
}

} // verus!
