//! Text as bytes: trimming, splitting into fields, and signed decimal
//! integers read and written.
use vstd::prelude::*;
use vstd::slice::{slice_subrange, slice_to_vec};

verus! {

/// Whether `b` is white space: a blank, or one of the five controls from
/// the tabulator to the carriage return.
pub open spec fn is_space(b: u8) -> bool {
    (9 <= b <= 13) || b == 32
}

/// Whether `b` is white space.
pub fn space(b: u8) -> (r: bool)
    ensures
        r == is_space(b),
{
    (9 <= b && b <= 13) || b == 32
}

/// `s` without the white space it starts with.
pub open spec fn trim_start(s: Seq<u8>) -> Seq<u8>
    decreases s.len(),
{
    if s.len() > 0 && is_space(s[0]) {
        trim_start(s.skip(1))
    } else {
        s
    }
}

/// `s` without the white space it ends with.
pub open spec fn trim_end(s: Seq<u8>) -> Seq<u8>
    decreases s.len(),
{
    if s.len() > 0 && is_space(s.last()) {
        trim_end(s.drop_last())
    } else {
        s
    }
}

/// `s` without the white space around it.
pub open spec fn trimmed(s: Seq<u8>) -> Seq<u8> {
    trim_end(trim_start(s))
}

/// Text that neither starts nor ends with white space is its own trimming.
pub proof fn lemma_trimmed_fixed(s: Seq<u8>)
    requires
        s.len() > 0 ==> !is_space(s[0]) && !is_space(s.last()),
    ensures
        trimmed(s) == s,
{
}

/// `text` without the white space around it.
pub fn trim(text: &[u8]) -> (r: &[u8])
    ensures
        r@ == trimmed(text@),
{
    let n: usize = text.len();
    let mut i: usize = 0;
    assert(text@.skip(0) =~= text@);
    while i < n && space(text[i])
        invariant
            i <= n,
            n == text@.len(),
            trim_start(text@) == trim_start(text@.skip(i as int)),
        decreases n - i,
    {
        assert(text@.skip(i as int).skip(1) =~= text@.skip(i as int + 1));
        i = i + 1;
    }
    assert(text@.skip(i as int) =~= text@.subrange(i as int, n as int));
    let mut j: usize = n;
    while j > i && space(text[j - 1])
        invariant
            i <= j <= n,
            n == text@.len(),
            trim_end(text@.subrange(i as int, n as int)) == trim_end(
                text@.subrange(i as int, j as int),
            ),
        decreases j,
    {
        assert(text@.subrange(i as int, j as int).drop_last() =~= text@.subrange(
            i as int,
            j as int - 1,
        ));
        j = j - 1;
    }
    slice_subrange(text, i, j)
}

/// What separates the fields of a text.
#[derive(Clone, Copy, Debug, PartialEq, Eq, Structural)]
pub enum Delimiter {
    /// One given byte.
    Byte(u8),
    /// Any white space.
    Whitespace,
}

impl Delimiter {
    /// Whether `b` separates fields.
    pub open spec fn matches(self, b: u8) -> bool {
        match self {
            Delimiter::Byte(d) => b == d,
            Delimiter::Whitespace => is_space(b),
        }
    }

    /// Whether `b` separates fields.
    pub fn is_match(self, b: u8) -> (r: bool)
        ensures
            r == self.matches(b),
    {
        match self {
            Delimiter::Byte(d) => b == d,
            Delimiter::Whitespace => space(b),
        }
    }
}

/// How many bytes stand in `s` before the first delimiter: the length of
/// `s` if it holds none.
pub open spec fn run_length(s: Seq<u8>, d: Delimiter) -> nat
    decreases s.len(),
{
    if s.len() == 0 || d.matches(s[0]) {
        0
    } else {
        1 + run_length(s.skip(1), d)
    }
}

/// The fields of `s`: its longest stretches without a delimiter, in order,
/// the empty ones left out.
pub open spec fn fields(s: Seq<u8>, d: Delimiter) -> Seq<Seq<u8>>
    decreases s.len(),
    via fields_terminates
{
    if s.len() == 0 {
        Seq::empty()
    } else if d.matches(s[0]) {
        fields(s.skip(1), d)
    } else {
        seq![s.take(run_length(s, d) as int)] + fields(s.skip(run_length(s, d) as int), d)
    }
}

#[via_fn]
proof fn fields_terminates(s: Seq<u8>, d: Delimiter) {
    lemma_run_length(s, d);
}

/// The run before the first delimiter ends within the text, at a delimiter
/// or at the end, and holds no delimiter.
pub proof fn lemma_run_length(s: Seq<u8>, d: Delimiter)
    ensures
        run_length(s, d) <= s.len(),
        run_length(s, d) < s.len() ==> d.matches(s[run_length(s, d) as int]),
        forall|i: int| 0 <= i < run_length(s, d) ==> !d.matches(#[trigger] s[i]),
    decreases s.len(),
{
    if s.len() > 0 && !d.matches(s[0]) {
        lemma_run_length(s.skip(1), d);
        assert forall|i: int| 0 <= i < run_length(s, d) implies !d.matches(#[trigger] s[i]) by {
            if i > 0 {
                assert(s[i] == s.skip(1)[i - 1]);
            }
        }
    }
}

/// A stretch of `k` bytes without a delimiter, ending at a delimiter or at
/// the end of the text, is the run before the first delimiter.
pub proof fn lemma_run_length_is(s: Seq<u8>, d: Delimiter, k: int)
    requires
        0 <= k <= s.len(),
        forall|i: int| 0 <= i < k ==> !d.matches(#[trigger] s[i]),
        k < s.len() ==> d.matches(s[k]),
    ensures
        run_length(s, d) == k,
    decreases s.len(),
{
    if k > 0 {
        assert(!d.matches(s[0]));
        assert forall|i: int| 0 <= i < k - 1 implies !d.matches(#[trigger] s.skip(1)[i]) by {
            assert(s.skip(1)[i] == s[i + 1]);
        }
        lemma_run_length_is(s.skip(1), d, k - 1);
    }
}

/// The position of the first delimiter in `text`, or the length of `text`.
pub fn find(text: &[u8], d: Delimiter) -> (k: usize)
    ensures
        k == run_length(text@, d),
        k <= text@.len(),
{
    let n: usize = text.len();
    let mut k: usize = 0;
    while k < n && !d.is_match(text[k])
        invariant
            k <= n,
            n == text@.len(),
            forall|i: int| 0 <= i < k ==> !d.matches(#[trigger] text@[i]),
        decreases n - k,
    {
        k = k + 1;
    }
    proof {
        lemma_run_length_is(text@, d, k as int);
    }
    k
}

/// The texts that a sequence of byte vectors holds.
pub open spec fn texts(v: Seq<Vec<u8>>) -> Seq<Seq<u8>> {
    Seq::new(v.len(), |i: int| v[i]@)
}

/// The fields of `text`, each in a vector of its own.
pub fn split_fields(text: &[u8], d: Delimiter) -> (r: Vec<Vec<u8>>)
    ensures
        texts(r@) == fields(text@, d),
{
    let n: usize = text.len();
    let mut out: Vec<Vec<u8>> = Vec::new();
    let mut i: usize = 0;
    assert(text@.skip(0) =~= text@);
    assert(texts(out@) + fields(text@.skip(0), d) =~= fields(text@, d));
    while i < n
        invariant
            i <= n,
            n == text@.len(),
            texts(out@) + fields(text@.skip(i as int), d) == fields(text@, d),
        decreases n - i,
    {
        let rest = slice_subrange(text, i, n);
        assert(rest@ =~= text@.skip(i as int));
        if d.is_match(text[i]) {
            assert(rest@.skip(1) =~= text@.skip(i as int + 1));
            i = i + 1;
        } else {
            let k: usize = find(rest, d);
            let field: Vec<u8> = slice_to_vec(slice_subrange(rest, 0, k));
            assert(field@ =~= rest@.take(k as int));
            assert(rest@.skip(k as int) =~= text@.skip(i as int + k as int));
            let ghost before = texts(out@);
            out.push(field);
            assert(texts(out@) =~= before + seq![rest@.take(k as int)]);
            assert(texts(out@) + fields(text@.skip(i as int + k as int), d) =~= before + (
                seq![rest@.take(k as int)] + fields(rest@.skip(k as int), d)));
            assert(k > 0);
            i = i + k;
        }
    }
    assert(text@.skip(n as int) =~= Seq::<u8>::empty());
    assert(texts(out@) + Seq::<Seq<u8>>::empty() =~= texts(out@));
    out
}

/// No field is empty, and no field holds a delimiter.
pub proof fn lemma_fields(s: Seq<u8>, d: Delimiter)
    ensures
        forall|i: int|
            0 <= i < fields(s, d).len() ==> (#[trigger] fields(s, d)[i]).len() > 0,
        forall|i: int, j: int|
            0 <= i < fields(s, d).len() && 0 <= j < fields(s, d)[i].len() ==> !d.matches(
                #[trigger] fields(s, d)[i][j],
            ),
    decreases s.len(),
{
    let f = fields(s, d);
    if s.len() == 0 {
        assert(f.len() == 0);
    } else if d.matches(s[0]) {
        lemma_fields(s.skip(1), d);
        assert(f == fields(s.skip(1), d));
    } else {
        let k = run_length(s, d) as int;
        lemma_run_length(s, d);
        assert(k > 0);
        lemma_fields(s.skip(k), d);
        let rest = fields(s.skip(k), d);
        assert(f =~= seq![s.take(k)] + rest);
        assert forall|i: int| 0 <= i < f.len() implies (#[trigger] f[i]).len() > 0 by {
            if i > 0 {
                assert(f[i] == rest[i - 1]);
            } else {
                assert(f[0] == s.take(k));
            }
        }
        assert forall|i: int, j: int| 0 <= i < f.len() && 0 <= j < f[i].len() implies !d.matches(
            #[trigger] f[i][j],
        ) by {
            if i > 0 {
                assert(f[i] == rest[i - 1]);
                assert(!d.matches(rest[i - 1][j]));
            } else {
                assert(f[0] == s.take(k));
                assert(f[0][j] == s[j]);
            }
        }
    }
}

/// Whether `b` is a decimal digit.
pub open spec fn is_digit(b: u8) -> bool {
    48 <= b <= 57
}

/// Whether `s` holds decimal digits only.
pub open spec fn all_digits(s: Seq<u8>) -> bool {
    forall|i: int| 0 <= i < s.len() ==> is_digit(#[trigger] s[i])
}

/// The number that the decimal digits `s` write; 0 for no digits.
pub open spec fn decimal(s: Seq<u8>) -> int
    decreases s.len(),
{
    if s.len() == 0 {
        0
    } else {
        decimal(s.drop_last()) * 10 + (s.last() as int - 48)
    }
}

/// The integer that `s` writes: an optional sign, `+` or `-`, and then at
/// least one decimal digit and nothing else.
pub open spec fn signed_integer(s: Seq<u8>) -> Option<int> {
    if s.len() > 0 && (s[0] == 43 || s[0] == 45) {
        if s.len() > 1 && all_digits(s.skip(1)) {
            Some(
                if s[0] == 45 {
                    -decimal(s.skip(1))
                } else {
                    decimal(s.skip(1))
                },
            )
        } else {
            None
        }
    } else if s.len() > 0 && all_digits(s) {
        Some(decimal(s))
    } else {
        None
    }
}

/// The integer that `s` writes, if it writes one that fits in 64 bits.
pub open spec fn number(s: Seq<u8>) -> Option<i64> {
    match signed_integer(s) {
        Some(v) => if i64::MIN <= v <= i64::MAX {
            Some(v as i64)
        } else {
            None
        },
        None => None,
    }
}

/// More digits never write a smaller number.
pub proof fn lemma_decimal_grows(s: Seq<u8>, k: int)
    requires
        all_digits(s),
        0 <= k <= s.len(),
    ensures
        0 <= decimal(s.take(k)) <= decimal(s),
    decreases s.len(),
{
    if k == s.len() {
        assert(s.take(k) =~= s);
        if k > 0 {
            lemma_decimal_grows(s.drop_last(), k - 1);
            assert(is_digit(s[k - 1]));
        }
    } else {
        lemma_decimal_grows(s.drop_last(), k);
        assert(s.drop_last().take(k) =~= s.take(k));
        assert(is_digit(s[s.len() - 1]));
    }
}

/// Reads a signed decimal integer of 64 bits.
pub fn parse_integer(text: &[u8]) -> (r: Option<i64>)
    ensures
        r == number(text@),
{
    let n: usize = text.len();
    if n == 0 {
        return None;
    }
    let negative: bool = text[0] == 45;
    let start: usize = if text[0] == 45 || text[0] == 43 {
        1
    } else {
        0
    };
    if start == n {
        return None;
    }
    let ghost body = text@.skip(start as int);
    let mut acc: u128 = 0;
    let mut i: usize = start;
    assert(body.take(0) =~= Seq::<u8>::empty());
    assert(text@.skip(0) =~= text@);
    while i < n
        invariant
            start <= i <= n,
            n == text@.len(),
            body == text@.skip(start as int),
            start == 0 ==> body == text@,
            start < n,
            start == (if text@[0] == 45 || text@[0] == 43 {
                1int
            } else {
                0int
            }),
            negative == (text@[0] == 45),
            all_digits(body.take(i - start)),
            acc == decimal(body.take(i - start)),
            acc <= 0x8000_0000_0000_0000,
        decreases n - i,
    {
        let b: u8 = text[i];
        let ghost j = i - start;
        assert(body[j] == b);
        if b < 48 || b > 57 {
            return None;
        }
        assert(body.take(j + 1).drop_last() =~= body.take(j));
        assert(all_digits(body.take(j + 1))) by {
            assert forall|x: int| 0 <= x < j + 1 implies is_digit(
                #[trigger] body.take(j + 1)[x],
            ) by {
                if x < j {
                    assert(body.take(j + 1)[x] == body.take(j)[x]);
                }
            }
        }
        acc = acc * 10 + (b - 48) as u128;
        if acc > 0x8000_0000_0000_0000 {
            proof {
                if all_digits(body) {
                    lemma_decimal_grows(body, j + 1);
                }
            }
            return None;
        }
        i = i + 1;
    }
    assert(body.take(n - start) =~= body);
    if negative {
        if acc == 0x8000_0000_0000_0000 {
            Some(i64::MIN)
        } else {
            Some(-(acc as i64))
        }
    } else if acc == 0x8000_0000_0000_0000 {
        None
    } else {
        Some(acc as i64)
    }
}

/// The decimal digits of `n`, without leading zeros: `0` for 0.
pub open spec fn digits_of(n: nat) -> Seq<u8>
    decreases n,
{
    if n < 10 {
        seq![(48 + n) as u8]
    } else {
        digits_of(n / 10).push((48 + n % 10) as u8)
    }
}

/// How `v` is written: `-` before the digits of a negative number.
pub open spec fn render(v: int) -> Seq<u8> {
    if v < 0 {
        seq![45u8] + digits_of((-v) as nat)
    } else {
        digits_of(v as nat)
    }
}

/// The digits of a number are digits, at least one, and write that number.
pub proof fn lemma_digits_of(n: nat)
    ensures
        digits_of(n).len() > 0,
        all_digits(digits_of(n)),
        decimal(digits_of(n)) == n,
    decreases n,
{
    if n < 10 {
        assert(digits_of(n).drop_last() =~= Seq::<u8>::empty());
        assert(decimal(digits_of(n).drop_last()) == 0);
    } else {
        lemma_digits_of(n / 10);
        assert(digits_of(n).drop_last() =~= digits_of(n / 10));
    }
}

/// What a number is written as reads back as that number, and holds
/// neither white space nor a `/`.
pub proof fn lemma_render_reads_back(v: int)
    ensures
        signed_integer(render(v)) == Some(v),
        render(v).len() > 0,
        forall|i: int|
            0 <= i < render(v).len() ==> !is_space(#[trigger] render(v)[i]) && render(v)[i] != 47,
{
    if v < 0 {
        let m = (-v) as nat;
        lemma_digits_of(m);
        assert(render(v).skip(1) =~= digits_of(m));
        assert forall|i: int| 0 <= i < render(v).len() implies !is_space(#[trigger] render(v)[i])
            && render(v)[i] != 47 by {
            if i > 0 {
                assert(is_digit(digits_of(m)[i - 1]));
            }
        }
    } else {
        lemma_digits_of(v as nat);
        assert(is_digit(render(v)[0]));
    }
}

/// Appends the digits of `n` to `out`.
fn push_digits(out: &mut Vec<u8>, n: u64)
    ensures
        final(out)@ == old(out)@ + digits_of(n as nat),
    decreases n,
{
    if n >= 10 {
        push_digits(out, n / 10);
    }
    let ghost before = out@;
    out.push(48 + (n % 10) as u8);
    assert(before.push((48 + n % 10) as u8) =~= before + seq![(48 + n % 10) as u8]);
    assert(old(out)@ + digits_of((n / 10) as nat).push((48 + n % 10) as u8) =~= (old(out)@
        + digits_of((n / 10) as nat)).push((48 + n % 10) as u8));
}

/// Appends to `out` how `v` is written.
pub fn push_integer(out: &mut Vec<u8>, v: i64)
    ensures
        final(out)@ == old(out)@ + render(v as int),
{
    if v < 0 {
        out.push(45);
        let m: u64 = (-(v as i128)) as u64;
        push_digits(out, m);
        assert(old(out)@.push(45u8) + digits_of(m as nat) =~= old(out)@ + (seq![45u8] + digits_of(
            m as nat,
        )));
    } else {
        push_digits(out, v as u64);
    }
}

} // verus!
