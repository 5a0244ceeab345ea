//! Decimal output: limbs already are base-`10^9` digits, so printing is just
//! zero-padded formatting.
use crate::bigint::BigInt;
use crate::digits;
use crate::parallel;
use crate::parallel::par_chunks_map;
use vstd::arithmetic::div_mod::*;
use vstd::arithmetic::mul::*;
use vstd::arithmetic::power::*;
use vstd::prelude::*;

verus! {

/// Below this many lower limbs, format serially (the thread pool is not worth
/// it for a few hundred groups).
const PAR_CHUNK_MIN_LIMBS: usize = 256;

/// Append one digit.
fn push_digit(out: &mut String, d: u32)
    requires
        d < 10,
    ensures
        final(out)@ == old(out)@.push(digits::digit_char(d as nat)),
{
    proof {
        reveal_strlit("0");
        reveal_strlit("1");
        reveal_strlit("2");
        reveal_strlit("3");
        reveal_strlit("4");
        reveal_strlit("5");
        reveal_strlit("6");
        reveal_strlit("7");
        reveal_strlit("8");
        reveal_strlit("9");
    }
    let digit: &str = match d {
        0 => "0",
        1 => "1",
        2 => "2",
        3 => "3",
        4 => "4",
        5 => "5",
        6 => "6",
        7 => "7",
        8 => "8",
        _ => "9",
    };
    assert(digit@ =~= seq![digits::digit_char(d as nat)]);
    let ghost old_out = out@;
    out.append(digit);
    assert(out@ =~= old_out.push(digits::digit_char(d as nat)));
}

/// Append the digits of `w`, without leading zeros.
fn push_plain(out: &mut String, w: u32)
    ensures
        final(out)@ == old(out)@ + digits::decimal(w as nat),
    decreases w,
{
    let ghost old_out = out@;
    if w >= 10 {
        push_plain(out, w / 10);
    }
    push_digit(out, w % 10);
    assert(out@ =~= old_out + digits::decimal(w as nat));
}

/// Append exactly 9 digits with leading zeros.
fn push_9(out: &mut String, w: u32)
    ensures
        final(out)@ == old(out)@ + digits::padded(w as nat, 9),
{
    let ghost old_out = out@;
    let ghost all = digits::padded(w as nat, 9);
    let mut buf: [u32; 9] = [0; 9];
    let mut left: u32 = w;
    let mut i: usize = 9;
    proof {
        digits::lemma_padded_len(w as nat, 9);
    }
    while i > 0
        invariant
            i <= 9,
            all.len() == 9,
            digits::padded(left as nat, i as nat) == all.take(i as int),
            forall|j: int|
                i <= j < 9 ==> #[trigger] buf@[j] < 10 && digits::digit_char(buf@[j] as nat)
                    == all[j],
        decreases i,
    {
        proof {
            assert(all.take(i as int).last() == all[i - 1]);
            assert(all.take(i as int).drop_last() =~= all.take(i - 1));
            assert(digits::padded((left / 10) as nat, (i - 1) as nat) =~= digits::padded(
                left as nat,
                i as nat,
            ).drop_last());
            assert(digits::padded(left as nat, i as nat).last() == digits::digit_char(
                (left % 10) as nat,
            ));
        }
        i = i - 1;
        buf[i] = left % 10;
        left = left / 10;
    }
    while i < 9
        invariant
            i <= 9,
            all.len() == 9,
            forall|j: int|
                0 <= j < 9 ==> #[trigger] buf@[j] < 10 && digits::digit_char(buf@[j] as nat)
                    == all[j],
            out@ == old_out + all.take(i as int),
        decreases 9 - i,
    {
        push_digit(out, buf[i]);
        i = i + 1;
        assert(out@ =~= old_out + all.take(i as int));
    }
    assert(all.take(9) =~= all);
}

/// Append the zero-padded groups of `limbs`, the last limb first.
fn push_groups(out: &mut String, limbs: &[u32])
    ensures
        final(out)@ == old(out)@ + digits::groups(limbs@),
{
    let ghost old_out = out@;
    let mut i: usize = limbs.len();
    assert(old_out + digits::groups(limbs@.skip(i as int)) =~= old_out);
    while i > 0
        invariant
            i <= limbs@.len(),
            out@ == old_out + digits::groups(limbs@.skip(i as int)),
        decreases i,
    {
        i = i - 1;
        push_9(out, limbs[i]);
        assert(limbs@.skip(i as int).drop_first() =~= limbs@.skip(i + 1));
        assert(out@ =~= old_out + digits::groups(limbs@.skip(i as int)));
    }
    assert(limbs@.skip(0) =~= limbs@);
}

/// The chunk size that shares `len` limbs out over `threads` threads.
fn chunk_size(len: usize, threads: usize) -> (chunk: usize)
    requires
        len > 0,
    ensures
        threads <= 1 ==> chunk == len,
        threads > 1 ==> (chunk - 1) * threads < len <= chunk * threads,
        0 < chunk <= len,
{
    let n: usize = if threads > 1 {
        threads
    } else {
        1
    };
    let q: usize = len / n;
    proof {
        lemma_fundamental_div_mod(len as int, n as int);
        lemma_mul_is_commutative(n as int, q as int);
        lemma_mul_is_distributive_add_other_way(n as int, q as int, 1);
        lemma_mul_is_distributive_sub_other_way(n as int, q as int, 1);
        lemma_div_is_ordered_by_denominator(len as int, 1, n as int);
        if q == len {
            lemma_mul_inequality(1, n as int, q as int);
            lemma_mul_is_commutative(n as int, q as int);
        }
    }
    if len % n > 0 {
        q + 1
    } else {
        q
    }
}

/// Append the groups of `rest`, formatting chunks of it in parallel; the order
/// is kept when they are put together.
fn push_groups_parallel(out: &mut String, rest: &[u32], chunk: usize)
    requires
        chunk > 0,
    ensures
        final(out)@ == old(out)@ + digits::groups(rest@),
{
    let ghost old_out = out@;
    let ghost len = rest@.len();
    let ghost size = chunk as nat;
    let parts: Vec<String> = par_chunks_map(
        rest,
        chunk,
        |c: &[u32]| -> (s: String)
            ensures
                s@ == digits::groups(c@)
            {
                let mut s = String::new();
                push_groups(&mut s, c);
                s
            },
    );
    let mut i: usize = parts.len();
    proof {
        let start = parallel::chunk_start(len, size, i as nat) as int;
        assert(start == len);
        assert(old_out + digits::groups(rest@.skip(start)) =~= old_out);
    }
    while i > 0
        invariant
            len == rest@.len(),
            size == chunk,
            i <= parts@.len(),
            forall|j: int|
                0 <= j < parts@.len() ==> #[trigger] parts@[j]@ == digits::groups(
                    parallel::chunk_at(rest@, size, j as nat),
                ),
            out@ == old_out + digits::groups(
                rest@.skip(parallel::chunk_start(len, size, i as nat) as int),
            ),
        decreases i,
    {
        i = i - 1;
        out.append(parts[i].as_str());
        proof {
            let lo = parallel::chunk_start(len, size, i as nat) as int;
            let hi = parallel::chunk_start(len, size, (i + 1) as nat) as int;
            lemma_mul_is_distributive_add_other_way(size as int, i as int, 1);
            assert(lo <= hi);
            let block = parallel::chunk_at(rest@, size, i as nat);
            assert(rest@.skip(lo) =~= block + rest@.skip(hi));
            digits::lemma_groups_append(block, rest@.skip(hi));
            assert(out@ =~= old_out + digits::groups(rest@.skip(lo)));
        }
    }
    proof {
        lemma_mul_basics(size as int);
        assert(rest@.skip(0) =~= rest@);
    }
}

/// Decimal string: top limb plain, every lower limb exactly 9 digits.
///
/// Chunks of lower limbs are formatted in parallel; a string holds at most
/// `isize::MAX` bytes.
pub fn to_decimal_string(v: &BigInt) -> (s: String)
    requires
        v.wf(),
        9 * v.limb_seq().len() <= isize::MAX,
    ensures
        s@ == digits::decimal(v@),
        digits::number(s@) == v@,
        forall|i: int| 0 <= i < s@.len() ==> '0' <= #[trigger] s@[i] <= '9',
        s@.len() > 0,
        s@[0] == '0' <==> v@ == 0,
{
    proof {
        v.lemma_wf();
        digits::lemma_number_decimal(v@);
        digits::lemma_decimal_digits(v@);
    }
    let mut out = String::new();
    if v.is_zero() {
        push_digit(&mut out, 0);
        assert(out@ =~= digits::decimal(0));
        return out;
    }
    let limbs = v.limbs();
    proof {
        digits::lemma_decimal_limbs(limbs@);
    }
    let n: usize = limbs.len() - 1;
    push_plain(&mut out, limbs[n]);
    let rest = vstd::slice::slice_subrange(limbs, 0, n);
    assert(rest@ =~= limbs@.drop_last());
    assert(out@ =~= digits::decimal(limbs@.last() as nat));
    if n < PAR_CHUNK_MIN_LIMBS {
        push_groups(&mut out, rest);
    } else {
        let chunk: usize = chunk_size(n, rayon::current_num_threads());
        push_groups_parallel(&mut out, rest, chunk);
    }
    out
}

/// Exact digit count, without building the string.
pub fn digit_count(v: &BigInt) -> (n: usize)
    requires
        v.wf(),
        9 * v.limb_seq().len() <= usize::MAX,
    ensures
        n == digits::decimal(v@).len(),
        v@ < pow(10, n as nat),
        n > 0,
        v@ > 0 ==> pow(10, (n - 1) as nat) <= v@,
{
    proof {
        digits::lemma_decimal_len(v@);
    }
    v.decimal_digits()
}

} // verus!
