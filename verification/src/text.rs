use vstd::prelude::*;
use vstd::string::*;

verus! {

/// Concatenates two string slices into a new `String`.
pub fn concat2(a: &str, b: &str) -> (r: String)
    ensures
        r@ == a@ + b@,
{
    let mut r = String::from_str(a);
    r.append(b);
    r
}

/// Concatenates three string slices into a new `String`.
pub fn concat3(a: &str, b: &str, c: &str) -> (r: String)
    ensures
        r@ == a@ + b@ + c@,
{
    let mut r = String::from_str(a);
    r.append(b);
    r.append(c);
    r
}

/// Concatenates five string slices into a new `String`.
pub fn concat5(a: &str, b: &str, c: &str, d: &str, e: &str) -> (r: String)
    ensures
        r@ == a@ + b@ + c@ + d@ + e@,
{
    let mut r = String::from_str(a);
    r.append(b);
    r.append(c);
    r.append(d);
    r.append(e);
    r
}

/// Strict lexicographic order on texts, comparing characters by their
/// code points: the order of `str`'s `Ord`.
pub open spec fn text_less(a: Seq<char>, b: Seq<char>) -> bool
    decreases a.len(),
{
    if a.len() == 0 {
        b.len() > 0
    } else if b.len() == 0 {
        false
    } else if a[0] != b[0] {
        (a[0] as int) < (b[0] as int)
    } else {
        text_less(a.drop_first(), b.drop_first())
    }
}

/// Whether `a` comes first in the order of `str`'s `Ord`, told directly:
/// `a` is a proper prefix of `b`, or at the first position where they
/// differ the character of `a` has the smaller code point.
pub open spec fn lexicographically_before(a: Seq<char>, b: Seq<char>) -> bool {
    ||| a.len() < b.len() && b.take(a.len() as int) == a
    ||| exists|i: int|
        0 <= i < a.len() && i < b.len() && a.take(i) == b.take(i) && (#[trigger] a[i] as int) < (b[i] as int)
}

/// The order on texts is the lexicographic order: a proper prefix comes
/// before its extensions, and otherwise the first differing character
/// decides.
pub proof fn lemma_text_less_is_lexicographic(a: Seq<char>, b: Seq<char>)
    ensures
        text_less(a, b) <==> lexicographically_before(a, b),
    decreases a.len(),
{
    if a.len() == 0 {
        assert(b.take(0) =~= a);
    } else if b.len() == 0 {
    } else if a[0] != b[0] {
        if a.len() < b.len() && b.take(a.len() as int) == a {
            assert(b.take(a.len() as int)[0] == b[0]);
        }
        if exists|i: int|
            0 <= i < a.len() && i < b.len() && a.take(i) == b.take(i) && (#[trigger] a[i] as int) < (b[i] as int) {
            let i = choose|i: int|
                0 <= i < a.len() && i < b.len() && a.take(i) == b.take(i) && (#[trigger] a[i] as int) < (b[i] as int);
            if i > 0 {
                assert(a.take(i)[0] == a[0]);
                assert(b.take(i)[0] == b[0]);
            }
        }
        if (a[0] as int) < (b[0] as int) {
            assert(a.take(0) =~= b.take(0));
        }
    } else {
        let a1 = a.drop_first();
        let b1 = b.drop_first();
        lemma_text_less_is_lexicographic(a1, b1);
        // proper prefix
        if a.len() < b.len() {
            if b.take(a.len() as int) == a {
                assert(b1.take(a1.len() as int) =~= a1) by {
                    assert forall|k: int| 0 <= k < a1.len() implies #[trigger] b1.take(a1.len() as int)[k] == a1[k] by {
                        assert(b.take(a.len() as int)[k + 1] == a[k + 1]);
                    }
                }
            }
            if b1.take(a1.len() as int) == a1 {
                assert(b.take(a.len() as int) =~= a) by {
                    assert forall|k: int| 0 <= k < a.len() implies #[trigger] b.take(a.len() as int)[k] == a[k] by {
                        if k > 0 {
                            assert(b1.take(a1.len() as int)[k - 1] == a1[k - 1]);
                        }
                    }
                }
            }
        }
        // first difference
        if exists|i: int|
            0 <= i < a.len() && i < b.len() && a.take(i) == b.take(i) && (#[trigger] a[i] as int) < (b[i] as int) {
            let i = choose|i: int|
                0 <= i < a.len() && i < b.len() && a.take(i) == b.take(i) && (#[trigger] a[i] as int) < (b[i] as int);
            assert(i > 0);
            assert(a1.take(i - 1) =~= b1.take(i - 1)) by {
                assert forall|k: int| 0 <= k < i - 1 implies #[trigger] a1.take(i - 1)[k] == b1.take(i - 1)[k] by {
                    assert(a.take(i)[k + 1] == b.take(i)[k + 1]);
                }
            }
            assert(a1[i - 1] == a[i] && b1[i - 1] == b[i]);
        }
        if exists|j: int|
            0 <= j < a1.len() && j < b1.len() && a1.take(j) == b1.take(j) && (#[trigger] a1[j] as int) < (b1[j] as int) {
            let j = choose|j: int|
                0 <= j < a1.len() && j < b1.len() && a1.take(j) == b1.take(j) && (#[trigger] a1[j] as int) < (b1[j] as int);
            assert(a.take(j + 1) =~= b.take(j + 1)) by {
                assert forall|k: int| 0 <= k < j + 1 implies #[trigger] a.take(j + 1)[k] == b.take(j + 1)[k] by {
                    if k > 0 {
                        assert(a1.take(j)[k - 1] == b1.take(j)[k - 1]);
                    }
                }
            }
            assert(a[j + 1] == a1[j] && b[j + 1] == b1[j]);
        }
    }
}

/// A proper prefix precedes every text that extends it, and the extension
/// never precedes it.
pub proof fn lemma_prefix_precedes(a: Seq<char>, b: Seq<char>)
    requires
        b.len() > 0,
    ensures
        text_less(a, a + b),
        !text_less(a + b, a),
{
    lemma_text_less_is_lexicographic(a, a + b);
    assert((a + b).take(a.len() as int) =~= a);
    lemma_text_less_total(a, a + b);
}

/// No text precedes itself.
pub proof fn lemma_text_less_irreflexive(a: Seq<char>)
    ensures
        !text_less(a, a),
    decreases a.len(),
{
    if a.len() > 0 {
        lemma_text_less_irreflexive(a.drop_first());
    }
}

/// Of two distinct texts, exactly one precedes the other.
pub proof fn lemma_text_less_total(a: Seq<char>, b: Seq<char>)
    ensures
        a != b ==> (text_less(a, b) || text_less(b, a)),
        !(text_less(a, b) && text_less(b, a)),
    decreases a.len(),
{
    if a.len() > 0 && b.len() > 0 {
        if a[0] == b[0] {
            lemma_text_less_total(a.drop_first(), b.drop_first());
            if a != b {
                assert(a.drop_first() != b.drop_first()) by {
                    if a.drop_first() == b.drop_first() {
                        assert(a =~= seq![a[0]] + a.drop_first());
                        assert(b =~= seq![b[0]] + b.drop_first());
                    }
                }
            }
        } else {
            assert((a[0] as int) != (b[0] as int));
        }
    } else if a.len() == 0 && b.len() == 0 {
        assert(a =~= b);
    }
}

/// The order on texts is transitive.
pub proof fn lemma_text_less_transitive(a: Seq<char>, b: Seq<char>, c: Seq<char>)
    requires
        text_less(a, b),
        text_less(b, c),
    ensures
        text_less(a, c),
    decreases a.len(),
{
    if a.len() > 0 && b.len() > 0 && c.len() > 0 && a[0] == b[0] && b[0] == c[0] {
        lemma_text_less_transitive(a.drop_first(), b.drop_first(), c.drop_first());
    }
}

/// Whether `a` precedes `b` in the order of `str`'s `Ord`.
pub fn precedes(a: &str, b: &str) -> (less: bool)
    ensures
        less == text_less(a@, b@),
{
    let la = a.unicode_len();
    let lb = b.unicode_len();
    let mut i: usize = 0;
    assert(a@.skip(0) =~= a@);
    assert(b@.skip(0) =~= b@);
    while i < la && i < lb
        invariant
            la == a@.len(),
            lb == b@.len(),
            i <= la,
            i <= lb,
            text_less(a@, b@) == text_less(a@.skip(i as int), b@.skip(i as int)),
        decreases la - i,
    {
        let ca = a.get_char(i);
        let cb = b.get_char(i);
        let ghost sa = a@.skip(i as int);
        let ghost sb = b@.skip(i as int);
        assert(sa[0] == ca && sb[0] == cb);
        if ca != cb {
            return (ca as u32) < (cb as u32);
        }
        assert(sa.drop_first() =~= a@.skip(i + 1));
        assert(sb.drop_first() =~= b@.skip(i + 1));
        i = i + 1;
    }
    i < lb && i == la
}

/// The value of the decimal digits of `s`, read with the most significant
/// digit first.
pub open spec fn decimal_value(s: Seq<char>) -> int
    decreases s.len(),
{
    if s.len() == 0 {
        0
    } else {
        decimal_value(s.drop_last()) * 10 + ((s.last() as int) - ('0' as int))
    }
}

/// Whether every character of `s` is a decimal digit.
pub open spec fn all_digits(s: Seq<char>) -> bool {
    forall|i: int| 0 <= i < s.len() ==> '0' <= #[trigger] s[i] <= '9'
}

proof fn lemma_digit_text(d: nat)
    requires
        d < 10,
    ensures
        digit_text(d).len() == 1,
        (digit_text(d)[0] as int) == ('0' as int) + d,
{
    reveal_strlit("0");
    reveal_strlit("1");
    reveal_strlit("2");
    reveal_strlit("3");
    reveal_strlit("4");
    reveal_strlit("5");
    reveal_strlit("6");
    reveal_strlit("7");
    reveal_strlit("8");
    reveal_strlit("9");
}

/// The decimal notation of `n` is standard: it is made of digits only, it
/// starts with no `0` unless it is `0` itself, and read with the most
/// significant digit first it gives back `n`.
pub proof fn lemma_decimal_reads_back(n: nat)
    ensures
        decimal(n).len() >= 1,
        all_digits(decimal(n)),
        decimal(n)[0] == '0' ==> n == 0,
        decimal_value(decimal(n)) == n,
    decreases n,
{
    if n < 10 {
        lemma_digit_text(n);
        let s = decimal(n);
        assert(s.drop_last() =~= Seq::<char>::empty());
        assert(decimal_value(s.drop_last()) == 0);
    } else {
        let q = n / 10;
        let r = n % 10;
        lemma_decimal_reads_back(q);
        lemma_digit_text(r);
        let s = decimal(n);
        let head = decimal(q);
        assert(s == head + digit_text(r));
        assert(s.drop_last() =~= head);
        assert(s.last() == digit_text(r)[0]);
        assert(s[0] == head[0]);
        assert(q > 0);
        assert forall|i: int| 0 <= i < s.len() implies '0' <= #[trigger] s[i] <= '9' by {
            if i < head.len() {
                assert(s[i] == head[i]);
            } else {
                assert(s[i] == digit_text(r)[0]);
            }
        }
        assert(q * 10 + r == n) by (nonlinear_arith)
            requires
                q == n / 10,
                r == n % 10,
        ;
    }
}

/// The characters of a digit.
pub open spec fn digit_text(d: nat) -> Seq<char> {
    if d == 0 {
        "0"@
    } else if d == 1 {
        "1"@
    } else if d == 2 {
        "2"@
    } else if d == 3 {
        "3"@
    } else if d == 4 {
        "4"@
    } else if d == 5 {
        "5"@
    } else if d == 6 {
        "6"@
    } else if d == 7 {
        "7"@
    } else if d == 8 {
        "8"@
    } else {
        "9"@
    }
}

/// The decimal notation of a natural number, without leading zeros.
pub open spec fn decimal(n: nat) -> Seq<char>
    decreases n,
{
    if n < 10 {
        digit_text(n)
    } else {
        decimal(n / 10) + digit_text(n % 10)
    }
}

fn digit_str(d: usize) -> (text: &'static str)
    requires
        d < 10,
    ensures
        text@ == digit_text(d as nat),
{
    if d == 0 {
        "0"
    } else if d == 1 {
        "1"
    } else if d == 2 {
        "2"
    } else if d == 3 {
        "3"
    } else if d == 4 {
        "4"
    } else if d == 5 {
        "5"
    } else if d == 6 {
        "6"
    } else if d == 7 {
        "7"
    } else if d == 8 {
        "8"
    } else {
        "9"
    }
}

/// Appends the decimal notation of `n` to `out`.
pub fn push_decimal(out: &mut String, n: usize)
    ensures
        final(out)@ == old(out)@ + decimal(n as nat),
    decreases n,
{
    if n >= 10 {
        push_decimal(out, n / 10);
        out.append(digit_str(n % 10));
        assert(final(out)@ =~= old(out)@ + decimal(n as nat));
    } else {
        out.append(digit_str(n));
    }
}

/// What follows the last `::` of a path, or the whole text when it holds
/// no `::`.
pub open spec fn last_segment(path: Seq<char>) -> Seq<char>
    decreases path.len(),
{
    if path.len() < 2 {
        path
    } else if path[path.len() - 2] == ':' && path[path.len() - 1] == ':' {
        Seq::empty()
    } else {
        last_segment(path.drop_last()).push(path.last())
    }
}

proof fn lemma_last_segment_split(path: Seq<char>, j: int)
    requires
        0 <= j <= path.len(),
        forall|k: int| j < k <= path.len() && k >= 2 ==> !(#[trigger] path[k - 2] == ':' && path[k - 1] == ':'),
    ensures
        last_segment(path) == last_segment(path.take(j)) + path.skip(j),
    decreases path.len() - j,
{
    if j < path.len() {
        let shorter = path.drop_last();
        assert forall|k: int| j < k <= shorter.len() && k >= 2 implies !(#[trigger] shorter[k - 2] == ':' && shorter[k - 1] == ':') by {
            assert(shorter[k - 2] == path[k - 2]);
            assert(shorter[k - 1] == path[k - 1]);
        }
        lemma_last_segment_split(shorter, j);
        assert(shorter.take(j) =~= path.take(j));
        if path.len() >= 2 {
            assert(!(path[path.len() - 2] == ':' && path[path.len() - 1] == ':'));
        }
        assert(last_segment(path) =~= last_segment(shorter).push(path.last()));
        assert(path.skip(j) =~= shorter.skip(j).push(path.last()));
    } else {
        assert(path.take(j) =~= path);
        assert(path.skip(j) =~= Seq::<char>::empty());
    }
}

/// What follows the last `::` of `path`, or all of `path` without one.
pub fn last_path_segment(path: &str) -> (segment: &str)
    ensures
        segment@ == last_segment(path@),
{
    let n = path.unicode_len();
    let mut j: usize = n;
    while j >= 2
        invariant
            n == path@.len(),
            j <= n,
            forall|k: int| j < k <= n && k >= 2 ==> !(#[trigger] path@[k - 2] == ':' && path@[k - 1] == ':'),
        decreases j,
    {
        if path.get_char(j - 2) == ':' && path.get_char(j - 1) == ':' {
            proof {
                lemma_last_segment_split(path@, j as int);
                assert(last_segment(path@.take(j as int)) =~= Seq::<char>::empty());
            }
            return path.substring_char(j, n);
        }
        j = j - 1;
    }
    proof {
        lemma_last_segment_split(path@, j as int);
        assert(last_segment(path@.take(j as int)) == path@.take(j as int));
        assert(path@.take(j as int) + path@.skip(j as int) =~= path@);
    }
    path.substring_char(0, n)
}

/// Texts joined by `" -> "`.
pub open spec fn join_arrows(parts: Seq<Seq<char>>) -> Seq<char>
    decreases parts.len(),
{
    if parts.len() == 0 {
        Seq::empty()
    } else if parts.len() == 1 {
        parts[0]
    } else {
        join_arrows(parts.drop_last()) + " -> "@ + parts.last()
    }
}

} // verus!
