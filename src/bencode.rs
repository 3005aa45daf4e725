//! Bencode: byte strings, integers, lists and dictionaries.
use vstd::prelude::*;

verus! {

broadcast use vstd::std_specs::vec::axiom_vec_index_decreases;

/// A decoded bencode value. Dictionary entries keep the order in which
/// they were written.
#[derive(Debug, PartialEq, Eq)]
pub enum BencodeValue {
    Bytes(Vec<u8>),
    Int(i64),
    List(Vec<BencodeValue>),
    Dict(Vec<(Vec<u8>, BencodeValue)>),
}

/// Why a byte sequence is not a bencoded value.
#[derive(Debug, PartialEq, Eq, Clone, Copy)]
pub enum BencodeError {
    /// A byte that no production of the grammar allows at its place.
    MalformedBencode,
    /// The input ends before the value does.
    UnexpectedEof,
}

/// The decimal digits of `n`, most significant first, with no leading zero.
pub open spec fn decimal(n: nat) -> Seq<u8>
    decreases n,
{
    if n < 10 {
        seq![(n + 48) as u8]
    } else {
        decimal(n / 10).push(((n % 10) + 48) as u8)
    }
}

/// The decimal text of a signed integer.
pub open spec fn signed_decimal(i: int) -> Seq<u8> {
    if i < 0 {
        seq![45u8] + decimal((-i) as nat)
    } else {
        decimal(i as nat)
    }
}

/// `i<decimal>e`
pub open spec fn enc_int(i: int) -> Seq<u8> {
    seq![105u8] + signed_decimal(i) + seq![101u8]
}

/// `<len>:<bytes>`
pub open spec fn enc_bytes(b: Seq<u8>) -> Seq<u8> {
    decimal(b.len()) + seq![58u8] + b
}

/// The encoding of a value, with dictionary entries in stored order.
pub open spec fn enc(v: BencodeValue) -> Seq<u8>
    decreases v, 1nat,
{
    match v {
        BencodeValue::Bytes(b) => enc_bytes(b@),
        BencodeValue::Int(i) => enc_int(i as int),
        BencodeValue::List(l) => seq![108u8] + enc_list(l@) + seq![101u8],
        BencodeValue::Dict(d) => seq![100u8] + enc_dict(d@) + seq![101u8],
    }
}

/// The encodings of the items, one after the other.
pub open spec fn enc_list(s: Seq<BencodeValue>) -> Seq<u8>
    decreases s, 0nat,
{
    if s.len() == 0 {
        Seq::empty()
    } else {
        enc_list(s.drop_last()) + enc(s.last())
    }
}

/// Each key as a byte string followed by its value.
pub open spec fn enc_dict(s: Seq<(Vec<u8>, BencodeValue)>) -> Seq<u8>
    decreases s, 0nat,
{
    if s.len() == 0 {
        Seq::empty()
    } else {
        enc_dict(s.drop_last()) + enc_bytes(s.last().0@) + enc(s.last().1)
    }
}


/// Appends the decimal digits of `n`.
pub(crate) fn push_decimal(out: &mut Vec<u8>, n: u64)
    ensures
        final(out)@ == old(out)@ + decimal(n as nat),
    decreases n,
{
    if n >= 10 {
        push_decimal(out, n / 10);
    }
    out.push((n % 10) as u8 + 48);
}

/// Appends `<len>:<bytes>`.
fn push_bytes(out: &mut Vec<u8>, b: &Vec<u8>)
    ensures
        final(out)@ == old(out)@ + enc_bytes(b@),
{
    push_decimal(out, b.len() as u64);
    out.push(58u8);
    let mut i: usize = 0;
    while i < b.len()
        invariant
            i <= b.len(),
            out@ == old(out)@ + decimal(b.len() as nat) + seq![58u8] + b@.take(i as int),
        decreases b.len() - i,
    {
        out.push(b[i]);
        assert(b@.take(i as int + 1) =~= b@.take(i as int).push(b[i as int]));
        i += 1;
    }
    assert(b@.take(b.len() as int) =~= b@);
}

/// The position in `idx` of the first listed entry of `d` with the
/// smallest key.
fn min_index(d: &Vec<(Vec<u8>, BencodeValue)>, idx: &Vec<usize>) -> (m: usize)
    requires
        idx@.len() > 0,
        forall|t: int| 0 <= t < idx@.len() ==> idx@[t] < d@.len(),
    ensures
        m == min_pos(d@, idx@),
        m < idx@.len(),
{
    let mut m: usize = 0;
    let mut j: usize = 1;
    while j < idx.len()
        invariant
            1 <= j <= idx@.len(),
            m < j,
            m == min_pos(d@, idx@.take(j as int)),
            forall|t: int| 0 <= t < idx@.len() ==> idx@[t] < d@.len(),
        decreases idx.len() - j,
    {
        let ghost pre = idx@.take(j as int + 1);
        assert(pre.drop_last() =~= idx@.take(j as int));
        assert(pre.last() == idx@[j as int]);
        assert(pre[m as int] == idx@[m as int]);
        if bytes_less(d[idx[j]].0.as_slice(), d[idx[m]].0.as_slice()) {
            m = j;
        }
        j += 1;
    }
    assert(idx@.take(idx@.len() as int) =~= idx@);
    m
}

/// Appends the canonical encoding of `v`.
fn encode_into(v: &BencodeValue, out: &mut Vec<u8>)
    ensures
        final(out)@ == old(out)@ + canon(*v),
    decreases v,
{
    match v {
        BencodeValue::Bytes(b) => {
            push_bytes(out, b);
        },
        BencodeValue::Int(i) => {
            out.push(105u8);
            if *i < 0 {
                out.push(45u8);
                push_decimal(out, (0i128 - *i as i128) as u64);
            } else {
                push_decimal(out, *i as u64);
            }
            out.push(101u8);
        },
        BencodeValue::List(l) => {
            proof {
                assert(decreases_to!(*v => v->List_0));
                assert(decreases_to!(*l => l@));
            }
            out.push(108u8);
            let ghost start = out@;
            let mut k: usize = 0;
            while k < l.len()
                invariant
                    k <= l.len(),
                    out@ == start + canon_list(l@.take(k as int)),
                    decreases_to!(*v => l@),
                decreases l.len() - k,
            {
                proof {
                    assert(decreases_to!(l@ => l@[k as int]));
                }
                encode_into(&l[k], out);
                assert(l@.take(k as int + 1).drop_last() =~= l@.take(k as int));
                k += 1;
            }
            assert(l@.take(l.len() as int) =~= l@);
            out.push(101u8);
        },
        BencodeValue::Dict(d) => {
            proof {
                assert(*v == BencodeValue::Dict(*d));
                assert(decreases_to!(*v => v->Dict_0));
                assert(decreases_to!(*d => d@));
            }
            out.push(100u8);
            let ghost start = out@;
            let ghost full = Seq::new(d@.len(), |i: int| i as usize);
            let mut idx: Vec<usize> = Vec::new();
            let mut j: usize = 0;
            while j < d.len()
                invariant
                    j <= d@.len(),
                    idx@ =~= Seq::new(j as nat, |i: int| i as usize),
                decreases d.len() - j,
            {
                idx.push(j);
                j += 1;
            }
            assert(idx@ =~= full);
            while idx.len() > 0
                invariant
                    forall|t: int| 0 <= t < idx@.len() ==> idx@[t] < d@.len(),
                    start + canon_dict(d@, full) == out@ + canon_dict(d@, idx@),
                    decreases_to!(*v => d@),
                decreases idx.len(),
            {
                let m = min_index(d, &idx);
                let k = idx[m];
                proof {
                    lemma_min_pos_range(d@, idx@);
                    assert(decreases_to!(d@ => d@[k as int]));
                    assert(decreases_to!(d@[k as int] => d@[k as int].1));
                }
                let ghost before = out@;
                let ghost cur = idx@;
                assert(canon_dict(d@, cur) == enc_bytes(d@[k as int].0@) + canon(d@[k as int].1)
                    + canon_dict(d@, cur.remove(m as int)));
                push_bytes(out, &d[k].0);
                encode_into(&d[k].1, out);
                idx.remove(m);
                proof {
                    assert(idx@ == cur.remove(m as int));
                    assert forall|t: int| 0 <= t < idx@.len() implies idx@[t] < d@.len() by {
                        if t < m {
                            assert(idx@[t] == cur[t]);
                        } else {
                            assert(idx@[t] == cur[t + 1]);
                        }
                    }
                    assert(out@ == before + enc_bytes(d@[k as int].0@) + canon(d@[k as int].1));
                    assert(before + canon_dict(d@, cur) =~= out@ + canon_dict(d@, idx@));
                }
            }
            assert(canon_dict(d@, idx@) =~= Seq::<u8>::empty());
            out.push(101u8);
            assert(out@ =~= old(out)@ + canon(*v));
        },
    }
}

/// The canonical bencoding of `v`: each dictionary's entries are written
/// in ascending order of their keys' raw bytes, whatever order the value
/// holds them in.
pub fn encode(v: &BencodeValue) -> (r: Vec<u8>)
    ensures
        r@ == canon(*v),
{
    let mut out: Vec<u8> = Vec::new();
    encode_into(v, &mut out);
    assert(out@ =~= canon(*v));
    out
}



/// The number that a run of decimal digits stands for.
pub open spec fn digits_value(s: Seq<u8>) -> nat
    decreases s.len(),
{
    if s.len() == 0 {
        0
    } else {
        digits_value(s.drop_last()) * 10 + ((s.last() - 48) as nat)
    }
}

pub open spec fn is_digit(b: u8) -> bool {
    48 <= b <= 57
}

pub open spec fn all_digits(s: Seq<u8>) -> bool {
    forall|i: int| 0 <= i < s.len() ==> is_digit(#[trigger] s[i])
}

proof fn lemma_digits_positive(s: Seq<u8>)
    requires
        s.len() >= 1,
        all_digits(s),
        s[0] != 48u8,
    ensures
        digits_value(s) > 0,
    decreases s.len(),
{
    if s.len() > 1 {
        assert(s.drop_last()[0] == s[0]);
        lemma_digits_positive(s.drop_last());
    }
}

/// A run of digits without a leading zero is the decimal text of its value.
proof fn lemma_decimal_of_digits(s: Seq<u8>)
    requires
        s.len() >= 1,
        all_digits(s),
        s.len() == 1 || s[0] != 48u8,
    ensures
        decimal(digits_value(s)) == s,
    decreases s.len(),
{
    let n = digits_value(s);
    if s.len() == 1 {
        assert(digits_value(s.drop_last()) == 0);
        assert(decimal(n) =~= s);
    } else {
        let t = s.drop_last();
        assert(t[0] == s[0]);
        lemma_digits_positive(t);
        lemma_decimal_of_digits(t);
        assert(n / 10 == digits_value(t));
        assert(n % 10 == (s.last() - 48) as nat);
        assert(decimal(n) =~= s);
    }
}

/// `a` is the beginning of `s`.
pub open spec fn is_prefix(a: Seq<u8>, s: Seq<u8>) -> bool {
    a.len() <= s.len() && s.subrange(0, a.len() as int) == a
}

/// What is left of `input` from `pos` on.
pub open spec fn rest(input: Seq<u8>, pos: int) -> Seq<u8> {
    input.subrange(pos, input.len() as int)
}

proof fn lemma_decimal_shape(n: nat)
    ensures
        decimal(n).len() >= 1,
        all_digits(decimal(n)),
        decimal(n).len() > 1 ==> decimal(n)[0] != 48u8,
        digits_value(decimal(n)) == n,
    decreases n,
{
    let d = decimal(n);
    if n >= 10 {
        let t = decimal(n / 10);
        lemma_decimal_shape(n / 10);
        assert(d.drop_last() =~= t);
        assert(d[0] == t[0]);
        assert(d.last() == ((n % 10) + 48) as u8);
        if n / 10 < 10 {
            assert(t[0] == ((n / 10) + 48) as u8);
        } else {
            lemma_decimal_shape(n / 100);
            assert(t.len() == decimal(n / 100).len() + 1);
        }
        assert(digits_value(d) == digits_value(t) * 10 + n % 10);
    } else {
        assert(d.drop_last() =~= Seq::<u8>::empty());
        assert(digits_value(d) == digits_value(d.drop_last()) * 10 + n);
    }
}

proof fn lemma_digits_prefix_le(s: Seq<u8>, k: int)
    requires
        all_digits(s),
        0 <= k <= s.len(),
    ensures
        digits_value(s.take(k)) <= digits_value(s),
    decreases s.len(),
{
    if k < s.len() {
        let t = s.drop_last();
        assert(t.take(k) =~= s.take(k));
        assert(all_digits(t));
        lemma_digits_prefix_le(t, k);
    } else {
        assert(s.take(k) =~= s);
    }
}

/// At most one number's decimal text followed by `stop` begins `s`.
proof fn lemma_decimal_unique(n: nat, m: nat, s: Seq<u8>, stop: u8)
    requires
        !is_digit(stop),
        is_prefix(decimal(n).push(stop), s),
        is_prefix(decimal(m).push(stop), s),
    ensures
        n == m,
{
    lemma_decimal_shape(n);
    lemma_decimal_shape(m);
    let a = decimal(n);
    let b = decimal(m);
    let pa = a.push(stop);
    let pb = b.push(stop);
    assert forall|i: int| 0 <= i < pa.len() implies s[i] == pa[i] by {
        assert(s.subrange(0, pa.len() as int)[i] == s[i]);
    }
    assert forall|i: int| 0 <= i < pb.len() implies s[i] == pb[i] by {
        assert(s.subrange(0, pb.len() as int)[i] == s[i]);
    }
    if a.len() < b.len() {
        assert(pa[a.len() as int] == stop);
        assert(pb[a.len() as int] == b[a.len() as int]);
    } else if b.len() < a.len() {
        assert(pb[b.len() as int] == stop);
        assert(pa[b.len() as int] == a[b.len() as int]);
    } else {
        assert(a =~= b) by {
            assert forall|i: int| 0 <= i < a.len() implies a[i] == b[i] by {
                assert(pa[i] == s[i]);
                assert(pb[i] == s[i]);
            }
        }
    }
}

proof fn lemma_prefix_of_concat(x: Seq<u8>, y: Seq<u8>, r: Seq<u8>)
    requires
        is_prefix(x + y, r),
    ensures
        is_prefix(x, r),
        is_prefix(y, r.subrange(x.len() as int, r.len() as int)),
{
    let xy = x + y;
    assert forall|j: int| 0 <= j < xy.len() implies r[j] == xy[j] by {
        assert(r.subrange(0, xy.len() as int)[j] == r[j]);
    }
    assert(r.subrange(0, x.len() as int) =~= x) by {
        assert forall|j: int| 0 <= j < x.len() implies r.subrange(0, x.len() as int)[j] == x[j] by {
            assert(xy[j] == x[j]);
        }
    }
    let tail = r.subrange(x.len() as int, r.len() as int);
    assert(tail.subrange(0, y.len() as int) =~= y) by {
        assert forall|j: int| 0 <= j < y.len() implies tail.subrange(0, y.len() as int)[j] == y[j] by {
            assert(xy[x.len() + j] == y[j]);
        }
    }
}

proof fn lemma_prefix_facts(r: Seq<u8>, m: nat, stop: u8)
    requires
        is_prefix(decimal(m).push(stop), r),
    ensures
        decimal(m).len() < r.len(),
        r[decimal(m).len() as int] == stop,
        forall|j: int| 0 <= j < decimal(m).len() ==> r[j] == #[trigger] decimal(m)[j],
        all_digits(decimal(m)),
        decimal(m).len() >= 1,
        decimal(m).len() > 1 ==> decimal(m)[0] != 48u8,
        digits_value(decimal(m)) == m,
{
    lemma_decimal_shape(m);
    let pa = decimal(m).push(stop);
    assert forall|j: int| 0 <= j < pa.len() implies r[j] == pa[j] by {
        assert(r.subrange(0, pa.len() as int)[j] == r[j]);
    }
    assert(pa[decimal(m).len() as int] == stop);
    assert forall|j: int| 0 <= j < decimal(m).len() implies r[j] == #[trigger] decimal(m)[j] by {
        assert(pa[j] == decimal(m)[j]);
    }
}

/// Reads a run of decimal digits at `pos`, ended by the byte `stop`.
/// Returns its value and the index of `stop`.
fn parse_natural(input: &[u8], pos: usize, stop: u8) -> (r: Result<(u64, usize), BencodeError>)
    requires
        pos <= input.len(),
        !is_digit(stop),
    ensures
        r matches Ok((n, end)) ==> pos < end < input.len() && input[end as int] == stop
            && input@.subrange(pos as int, end as int) == decimal(n as nat),
        r is Err ==> forall|m: nat|
            m <= u64::MAX ==> !is_prefix(#[trigger] decimal(m).push(stop), rest(input@, pos as int)),
{
    let mut i: usize = pos;
    let mut acc: u64 = 0;
    let ghost r0 = rest(input@, pos as int);
    while i < input.len()
        invariant
            pos <= i <= input.len(),
            r0 == rest(input@, pos as int),
            all_digits(input@.subrange(pos as int, i as int)),
            acc as nat == digits_value(input@.subrange(pos as int, i as int)),
            i > pos + 1 ==> input[pos as int] != 48u8,
            !is_digit(stop),
        decreases input.len() - i,
    {
        let b = input[i];
        let ghost s = input@.subrange(pos as int, i as int);
        assert forall|j: int| 0 <= j < i - pos implies is_digit(#[trigger] r0[j]) by {
            assert(r0[j] == s[j]);
        }
        assert(r0[i - pos] == b);
        if b == stop {
            if i == pos {
                proof {
                    assert forall|m: nat| m <= u64::MAX implies !is_prefix(
                        #[trigger] decimal(m).push(stop),
                        r0,
                    ) by {
                        if is_prefix(decimal(m).push(stop), r0) {
                            lemma_prefix_facts(r0, m, stop);
                            assert(r0[0] == decimal(m)[0]);
                        }
                    }
                }
                return Err(BencodeError::MalformedBencode);
            }
            proof {
                if s.len() > 1 {
                    assert(s[0] == input[pos as int]);
                }
                lemma_decimal_of_digits(s);
            }
            return Ok((acc, i));
        }
        if b < 48 || b > 57 {
            proof {
                assert forall|m: nat| m <= u64::MAX implies !is_prefix(
                    #[trigger] decimal(m).push(stop),
                    r0,
                ) by {
                    if is_prefix(decimal(m).push(stop), r0) {
                        lemma_prefix_facts(r0, m, stop);
                        let l = decimal(m).len() as int;
                        if l > i - pos {
                            assert(r0[i - pos] == decimal(m)[i - pos]);
                        } else if l < i - pos {
                            assert(is_digit(r0[l]));
                        }
                    }
                }
            }
            return Err(BencodeError::MalformedBencode);
        }
        if i > pos && input[pos] == 48 {
            proof {
                assert forall|m: nat| m <= u64::MAX implies !is_prefix(
                    #[trigger] decimal(m).push(stop),
                    r0,
                ) by {
                    if is_prefix(decimal(m).push(stop), r0) {
                        lemma_prefix_facts(r0, m, stop);
                        let l = decimal(m).len() as int;
                        assert(r0[0] == input[pos as int]);
                        if l == 1 {
                            assert(is_digit(r0[1]));
                        } else {
                            assert(r0[0] == decimal(m)[0]);
                        }
                    }
                }
            }
            return Err(BencodeError::MalformedBencode);
        }
        let d: u64 = (b - 48) as u64;
        let next = match acc.checked_mul(10) {
            Some(m) => m.checked_add(d),
            None => None,
        };
        let ghost s2 = input@.subrange(pos as int, i as int + 1);
        proof {
            assert(s2.drop_last() =~= s);
            assert(all_digits(s2));
        }
        match next {
            Some(n) => {
                acc = n;
            },
            None => {
                proof {
                    assert(digits_value(s2) > u64::MAX);
                    assert forall|m: nat| m <= u64::MAX implies !is_prefix(
                        #[trigger] decimal(m).push(stop),
                        r0,
                    ) by {
                        if is_prefix(decimal(m).push(stop), r0) {
                            lemma_prefix_facts(r0, m, stop);
                            let a = decimal(m);
                            let l = a.len() as int;
                            if l <= i - pos {
                                assert(is_digit(r0[l]));
                            } else {
                                assert(a.take(i - pos + 1) =~= s2) by {
                                    assert forall|j: int| 0 <= j < i - pos + 1 implies a[j]
                                        == s2[j] by {
                                        assert(r0[j] == a[j]);
                                        assert(r0[j] == input[pos + j]);
                                    }
                                }
                                lemma_digits_prefix_le(a, i - pos + 1);
                            }
                        }
                    }
                }
                return Err(BencodeError::MalformedBencode);
            },
        }
        i += 1;
    }
    proof {
        assert forall|m: nat| m <= u64::MAX implies !is_prefix(
            #[trigger] decimal(m).push(stop),
            r0,
        ) by {
            if is_prefix(decimal(m).push(stop), r0) {
                lemma_prefix_facts(r0, m, stop);
                let l = decimal(m).len() as int;
                assert(r0[l] == input[pos + l]);
                assert(is_digit(input@.subrange(pos as int, i as int)[l]));
            }
        }
    }
    Err(BencodeError::UnexpectedEof)
}

/// The bytes of `input` from `start` up to `end`.
pub(crate) fn copy_range(input: &[u8], start: usize, end: usize) -> (r: Vec<u8>)
    requires
        start <= end <= input.len(),
    ensures
        r@ == input@.subrange(start as int, end as int),
{
    let mut r: Vec<u8> = Vec::new();
    let mut i: usize = start;
    while i < end
        invariant
            start <= i <= end <= input.len(),
            r@ == input@.subrange(start as int, i as int),
        decreases end - i,
    {
        r.push(input[i]);
        assert(input@.subrange(start as int, i as int + 1) =~= r@);
        i += 1;
    }
    r
}

/// Reads a byte string `<len>:<bytes>` at `pos`.
fn decode_bytes_at(input: &[u8], pos: usize) -> (r: Result<(Vec<u8>, usize), BencodeError>)
    requires
        pos <= input.len(),
    ensures
        r matches Ok((b, end)) ==> pos < end <= input.len()
            && input@.subrange(pos as int, end as int) == enc_bytes(b@) && forall|c: Seq<u8>|
            is_prefix(#[trigger] enc_bytes(c), rest(input@, pos as int)) ==> enc_bytes(c)
            == enc_bytes(b@),
        r is Err ==> forall|c: Seq<u8>|
            c.len() <= u64::MAX ==> !is_prefix(#[trigger] enc_bytes(c), rest(input@, pos as int)),
{
    let ghost r0 = rest(input@, pos as int);
    let (n, colon) = match parse_natural(input, pos, 58u8) {
        Ok(x) => x,
        Err(e) => {
            proof {
                assert forall|c: Seq<u8>| c.len() <= u64::MAX implies !is_prefix(
                    #[trigger] enc_bytes(c),
                    r0,
                ) by {
                    if is_prefix(enc_bytes(c), r0) {
                        assert(enc_bytes(c) =~= decimal(c.len()).push(58u8) + c);
                        lemma_prefix_of_concat(decimal(c.len()).push(58u8), c, r0);
                    }
                }
            }
            return Err(e);
        },
    };
    let start = colon + 1;
    proof {
        assert(is_prefix(decimal(n as nat).push(58u8), r0)) by {
            assert(r0.subrange(0, start - pos) =~= input@.subrange(pos as int, colon as int).push(
                58u8,
            ));
        }
        assert forall|c: Seq<u8>| is_prefix(#[trigger] enc_bytes(c), r0) implies c.len() == n
            && enc_bytes(c).len() <= r0.len() by {
            assert(enc_bytes(c) =~= decimal(c.len()).push(58u8) + c);
            lemma_prefix_of_concat(decimal(c.len()).push(58u8), c, r0);
            lemma_decimal_unique(c.len(), n as nat, r0, 58u8);
        }
    }
    if n > (input.len() - start) as u64 {
        return Err(BencodeError::UnexpectedEof);
    }
    let end = start + n as usize;
    let b = copy_range(input, start, end);
    assert(input@.subrange(pos as int, end as int) =~= input@.subrange(pos as int, colon as int)
        + seq![58u8] + b@);
    proof {
        assert forall|c: Seq<u8>| is_prefix(#[trigger] enc_bytes(c), r0) implies enc_bytes(c)
            == enc_bytes(b@) by {
            assert(enc_bytes(c).len() == end - pos);
            assert(r0.subrange(0, end - pos) =~= input@.subrange(pos as int, end as int));
        }
    }
    Ok((b, end))
}

proof fn lemma_prefix_extend(x: Seq<u8>, y: Seq<u8>)
    ensures
        is_prefix(x, x + y),
{
    assert((x + y).subrange(0, x.len() as int) =~= x);
}

proof fn lemma_prefix_through(pre: Seq<u8>, x: Seq<u8>, y: Seq<u8>, post: Seq<u8>, r: Seq<u8>)
    requires
        is_prefix(x, y),
        is_prefix(pre + y + post, r),
    ensures
        is_prefix(pre + x, r),
{
    let big = pre + y + post;
    let small = pre + x;
    assert forall|j: int| 0 <= j < big.len() implies r[j] == big[j] by {
        assert(r.subrange(0, big.len() as int)[j] == r[j]);
    }
    assert forall|j: int| 0 <= j < x.len() implies x[j] == y[j] by {
        assert(y.subrange(0, x.len() as int)[j] == y[j]);
    }
    assert(r.subrange(0, small.len() as int) =~= small) by {
        assert forall|j: int| 0 <= j < small.len() implies r.subrange(0, small.len() as int)[j]
            == small[j] by {
            assert(r[j] == big[j]);
        }
    }
}

proof fn lemma_enc_list_prefix(s: Seq<BencodeValue>, j: int)
    requires
        0 <= j <= s.len(),
    ensures
        is_prefix(enc_list(s.take(j)), enc_list(s)),
    decreases s.len(),
{
    if j == s.len() {
        assert(s.take(j) =~= s);
        lemma_prefix_extend(enc_list(s), Seq::empty());
        assert(enc_list(s) + Seq::<u8>::empty() =~= enc_list(s));
    } else {
        let t = s.drop_last();
        assert(t.take(j) =~= s.take(j));
        lemma_enc_list_prefix(t, j);
        assert(Seq::<u8>::empty() + enc_list(t) + enc(s.last()) =~= enc_list(s));
        lemma_prefix_extend(enc_list(s), Seq::empty());
        assert(enc_list(s) + Seq::<u8>::empty() =~= enc_list(s));
        lemma_prefix_through(Seq::empty(), enc_list(t.take(j)), enc_list(t), enc(s.last()), enc_list(s));
        assert(Seq::<u8>::empty() + enc_list(t.take(j)) =~= enc_list(s.take(j)));
    }
}

proof fn lemma_enc_dict_prefix(s: Seq<(Vec<u8>, BencodeValue)>, j: int)
    requires
        0 <= j <= s.len(),
    ensures
        is_prefix(enc_dict(s.take(j)), enc_dict(s)),
    decreases s.len(),
{
    if j == s.len() {
        assert(s.take(j) =~= s);
        lemma_prefix_extend(enc_dict(s), Seq::empty());
        assert(enc_dict(s) + Seq::<u8>::empty() =~= enc_dict(s));
    } else {
        let t = s.drop_last();
        assert(t.take(j) =~= s.take(j));
        lemma_enc_dict_prefix(t, j);
        let tail = enc_bytes(s.last().0@) + enc(s.last().1);
        assert(Seq::<u8>::empty() + enc_dict(t) + tail =~= enc_dict(s));
        lemma_prefix_extend(enc_dict(s), Seq::empty());
        assert(enc_dict(s) + Seq::<u8>::empty() =~= enc_dict(s));
        lemma_prefix_through(Seq::empty(), enc_dict(t.take(j)), enc_dict(t), tail, enc_dict(s));
        assert(Seq::<u8>::empty() + enc_dict(t.take(j)) =~= enc_dict(s.take(j)));
    }
}

/// The first byte of an encoding tells its kind.
proof fn lemma_enc_head(v: BencodeValue)
    ensures
        enc(v).len() >= 2,
        v is Bytes ==> is_digit(enc(v)[0]),
        v is Int ==> enc(v)[0] == 105u8,
        v is List ==> enc(v)[0] == 108u8,
        v is Dict ==> enc(v)[0] == 100u8,
{
    match v {
        BencodeValue::Bytes(b) => {
            lemma_decimal_shape(b@.len());
            assert(enc(v)[0] == decimal(b@.len())[0]);
        },
        _ => {},
    }
}

proof fn lemma_enc_bytes_head(c: Seq<u8>)
    ensures
        enc_bytes(c).len() >= 2,
        is_digit(enc_bytes(c)[0]),
{
    lemma_decimal_shape(c.len());
    assert(enc_bytes(c)[0] == decimal(c.len())[0]);
}

/// Inside a list whose encoding begins `r`, after `k` items that were read
/// as `consumed`: either the list ends there, or item `k` is encoded next.
proof fn lemma_list_step(b: Seq<BencodeValue>, k: int, r: Seq<u8>, consumed: Seq<u8>)
    requires
        is_prefix(seq![108u8] + enc_list(b) + seq![101u8], r),
        0 <= k <= b.len(),
        enc_list(b.take(k)) == consumed,
    ensures
        r.len() >= consumed.len() + 2,
        k == b.len() ==> r[consumed.len() as int + 1] == 101u8 && enc_list(b) == consumed,
        k < b.len() ==> is_prefix(enc(b[k]), r.subrange(consumed.len() as int + 1, r.len() as int))
            && enc_list(b.take(k + 1)) == consumed + enc(b[k]),
{
    let whole = seq![108u8] + enc_list(b) + seq![101u8];
    lemma_enc_list_prefix(b, k);
    assert(r.subrange(0, whole.len() as int)[consumed.len() as int + 1] == r[consumed.len() as int + 1]);
    if k == b.len() {
        assert(b.take(k) =~= b);
        assert(whole[consumed.len() as int + 1] == 101u8);
    } else {
        assert(b.take(k + 1).drop_last() =~= b.take(k));
        lemma_enc_list_prefix(b, k + 1);
        lemma_prefix_through(seq![108u8], enc_list(b.take(k + 1)), enc_list(b), seq![101u8], r);
        assert(seq![108u8] + enc_list(b.take(k + 1)) =~= (seq![108u8] + consumed) + enc(b[k]));
        lemma_prefix_of_concat(seq![108u8] + consumed, enc(b[k]), r);
    }
}

/// Inside a dictionary whose encoding begins `r`, after `k` entries that
/// were read as `consumed`: either it ends there, or entry `k` is next.
proof fn lemma_dict_step(d: Seq<(Vec<u8>, BencodeValue)>, k: int, r: Seq<u8>, consumed: Seq<u8>)
    requires
        is_prefix(seq![100u8] + enc_dict(d) + seq![101u8], r),
        0 <= k <= d.len(),
        enc_dict(d.take(k)) == consumed,
    ensures
        r.len() >= consumed.len() + 2,
        k == d.len() ==> r[consumed.len() as int + 1] == 101u8 && enc_dict(d) == consumed,
        k < d.len() ==> is_prefix(
            enc_bytes(d[k].0@) + enc(d[k].1),
            r.subrange(consumed.len() as int + 1, r.len() as int),
        ) && enc_dict(d.take(k + 1)) == consumed + enc_bytes(d[k].0@) + enc(d[k].1),
{
    let whole = seq![100u8] + enc_dict(d) + seq![101u8];
    lemma_enc_dict_prefix(d, k);
    assert(r.subrange(0, whole.len() as int)[consumed.len() as int + 1] == r[consumed.len() as int + 1]);
    if k == d.len() {
        assert(d.take(k) =~= d);
        assert(whole[consumed.len() as int + 1] == 101u8);
    } else {
        assert(d.take(k + 1).drop_last() =~= d.take(k));
        lemma_enc_dict_prefix(d, k + 1);
        lemma_prefix_through(seq![100u8], enc_dict(d.take(k + 1)), enc_dict(d), seq![101u8], r);
        let entry = enc_bytes(d[k].0@) + enc(d[k].1);
        assert(seq![100u8] + enc_dict(d.take(k + 1)) =~= (seq![100u8] + consumed) + entry);
        lemma_prefix_of_concat(seq![100u8] + consumed, entry, r);
    }
}

/// Whether `b` can begin a bencoded value: a digit, `i`, `l` or `d`.
pub open spec fn starts_value(b: u8) -> bool {
    is_digit(b) || b == 105u8 || b == 108u8 || b == 100u8
}

proof fn lemma_int_prefix(j: int, r: Seq<u8>)
    requires
        is_prefix(enc_int(j), r),
    ensures
        r.len() >= 3,
        j < 0 ==> r[1] == 45u8 && is_prefix(
            decimal((-j) as nat).push(101u8),
            r.subrange(2, r.len() as int),
        ),
        j >= 0 ==> r[1] != 45u8 && is_prefix(decimal(j as nat).push(101u8), r.subrange(1, r.len() as int)),
{
    if j < 0 {
        lemma_decimal_shape((-j) as nat);
        assert(enc_int(j) =~= seq![105u8, 45u8] + decimal((-j) as nat).push(101u8));
        lemma_prefix_of_concat(seq![105u8, 45u8], decimal((-j) as nat).push(101u8), r);
        assert(r.subrange(0, 2)[1] == r[1]);
    } else {
        lemma_decimal_shape(j as nat);
        assert(enc_int(j) =~= seq![105u8] + decimal(j as nat).push(101u8));
        lemma_prefix_of_concat(seq![105u8], decimal(j as nat).push(101u8), r);
        let t = r.subrange(1, r.len() as int);
        assert(t.subrange(0, decimal(j as nat).len() as int + 1)[0] == t[0]);
        assert(decimal(j as nat).push(101u8)[0] == decimal(j as nat)[0]);
        assert(is_digit(decimal(j as nat)[0]));
    }
}

/// Reads an integer `i<digits>e` at `pos`, whose first byte is `i`.
fn decode_int_at(input: &[u8], pos: usize) -> (r: Result<(i64, usize), BencodeError>)
    requires
        pos < input.len(),
        input[pos as int] == 105u8,
    ensures
        r matches Ok((i, end)) ==> pos < end <= input.len()
            && input@.subrange(pos as int, end as int) == enc_int(i as int) && forall|j: i64|
            is_prefix(#[trigger] enc_int(j as int), rest(input@, pos as int)) ==> j == i,
        r is Err ==> forall|j: i64| !is_prefix(#[trigger] enc_int(j as int), rest(input@, pos as int)),
{
    let ghost r0 = rest(input@, pos as int);
    let mut p = pos + 1;
    if p >= input.len() {
        proof {
            assert forall|j: i64| !is_prefix(#[trigger] enc_int(j as int), r0) by {
                if is_prefix(enc_int(j as int), r0) {
                    lemma_int_prefix(j as int, r0);
                }
            }
        }
        return Err(BencodeError::UnexpectedEof);
    }
    assert(r0[1] == input[p as int]);
    let negative = input[p] == 45u8;
    if negative {
        p = p + 1;
    }
    assert(rest(input@, p as int) =~= r0.subrange(p - pos, r0.len() as int));
    let (n, e) = match parse_natural(input, p, 101u8) {
        Ok(x) => x,
        Err(err) => {
            proof {
                assert forall|j: i64| !is_prefix(#[trigger] enc_int(j as int), r0) by {
                    if is_prefix(enc_int(j as int), r0) {
                        lemma_int_prefix(j as int, r0);
                        if j < 0 {
                            assert(decimal((-j) as nat).push(101u8) == decimal((-j) as nat).push(
                                101u8,
                            ));
                        }
                    }
                }
            }
            return Err(err);
        },
    };
    proof {
        assert(is_prefix(decimal(n as nat).push(101u8), rest(input@, p as int))) by {
            assert(rest(input@, p as int).subrange(0, e - p + 1) =~= input@.subrange(
                p as int,
                e as int,
            ).push(101u8));
        }
    }
    if negative {
        proof {
            assert forall|j: i64| is_prefix(#[trigger] enc_int(j as int), r0) implies j < 0 && -j
                == n by {
                lemma_int_prefix(j as int, r0);
                if j < 0 {
                    lemma_decimal_unique((-j) as nat, n as nat, rest(input@, p as int), 101u8);
                }
            }
        }
        if n == 0 || n > 9223372036854775808u64 {
            return Err(BencodeError::MalformedBencode);
        }
        let i: i64 = (0i128 - n as i128) as i64;
        assert(input@.subrange(pos as int, e as int + 1) =~= enc_int(i as int));
        Ok((i, e + 1))
    } else {
        proof {
            assert forall|j: i64| is_prefix(#[trigger] enc_int(j as int), r0) implies j >= 0 && j
                == n by {
                lemma_int_prefix(j as int, r0);
                if j >= 0 {
                    lemma_decimal_unique(j as nat, n as nat, rest(input@, p as int), 101u8);
                }
            }
        }
        if n > 9223372036854775807u64 {
            return Err(BencodeError::MalformedBencode);
        }
        let i: i64 = n as i64;
        assert(input@.subrange(pos as int, e as int + 1) =~= enc_int(i as int));
        Ok((i, e + 1))
    }
}

/// Reads one value at `pos`. On success, the bytes read are the encoding
/// of the value returned, and the only encoding of a value that begins
/// there. On failure, no encoding of a value begins there.
fn decode_at(input: &[u8], pos: usize) -> (r: Result<(BencodeValue, usize), BencodeError>)
    requires
        pos <= input.len(),
    ensures
        r matches Ok((w, end)) ==> pos < end <= input.len()
            && input@.subrange(pos as int, end as int) == enc(w) && forall|v: BencodeValue|
            is_prefix(#[trigger] enc(v), rest(input@, pos as int)) ==> enc(v) == enc(w),
        r is Err ==> forall|v: BencodeValue| !is_prefix(#[trigger] enc(v), rest(input@, pos as int)),
        pos == input.len() ==> r == Err::<(BencodeValue, usize), BencodeError>(
            BencodeError::UnexpectedEof,
        ),
        pos < input.len() && !starts_value(input[pos as int]) ==> r == Err::<
            (BencodeValue, usize),
            BencodeError,
        >(BencodeError::MalformedBencode),
    decreases input.len() - pos,
{
    let ghost r0 = rest(input@, pos as int);
    if pos >= input.len() {
        proof {
            assert forall|v: BencodeValue| !is_prefix(#[trigger] enc(v), r0) by {
                lemma_enc_head(v);
            }
        }
        return Err(BencodeError::UnexpectedEof);
    }
    let c = input[pos];
    proof {
        assert(r0[0] == c);
        assert forall|v: BencodeValue| is_prefix(#[trigger] enc(v), r0) implies enc(v)[0] == c by {
            lemma_enc_head(v);
            assert(r0.subrange(0, enc(v).len() as int)[0] == r0[0]);
        }
    }
    if 48 <= c && c <= 57 {
        match decode_bytes_at(input, pos) {
            Ok((b, end)) => {
                proof {
                    assert forall|v: BencodeValue| is_prefix(#[trigger] enc(v), r0) implies enc(v)
                        == enc(BencodeValue::Bytes(b)) by {
                        lemma_enc_head(v);
                    }
                }
                Ok((BencodeValue::Bytes(b), end))
            },
            Err(e) => {
                proof {
                    assert forall|v: BencodeValue| !is_prefix(#[trigger] enc(v), r0) by {
                        lemma_enc_head(v);
                        if let BencodeValue::Bytes(x) = v {
                            assert(x@.len() == x.len());
                        }
                    }
                }
                Err(e)
            },
        }
    } else if c == 105u8 {
        match decode_int_at(input, pos) {
            Ok((i, end)) => {
                proof {
                    assert forall|v: BencodeValue| is_prefix(#[trigger] enc(v), r0) implies enc(v)
                        == enc(BencodeValue::Int(i)) by {
                        lemma_enc_head(v);
                    }
                }
                Ok((BencodeValue::Int(i), end))
            },
            Err(e) => {
                proof {
                    assert forall|v: BencodeValue| !is_prefix(#[trigger] enc(v), r0) by {
                        lemma_enc_head(v);
                    }
                }
                Err(e)
            },
        }
    } else if c == 108u8 {
        let mut items: Vec<BencodeValue> = Vec::new();
        let mut p = pos + 1;
        proof {
            assert forall|v: BencodeValue| is_prefix(#[trigger] enc(v), r0) implies v is List && enc_list(
                v->List_0@.take(0),
            ) == input@.subrange(pos as int + 1, pos as int + 1) by {
                lemma_enc_head(v);
                assert(v->List_0@.take(0) =~= Seq::<BencodeValue>::empty());
                assert(input@.subrange(pos as int + 1, pos as int + 1) =~= Seq::<u8>::empty());
            }
        }
        loop
            invariant
                pos < p <= input.len(),
                input@.subrange(pos as int + 1, p as int) == enc_list(items@),
                input[pos as int] == 108u8,
                r0 == rest(input@, pos as int),
                forall|v: BencodeValue|
                    is_prefix(#[trigger] enc(v), r0) ==> v is List && v->List_0@.len() >= items@.len()
                        && enc_list(v->List_0@.take(items@.len() as int)) == input@.subrange(
                        pos as int + 1,
                        p as int,
                    ),
            decreases input.len() - p,
        {
            let ghost consumed = input@.subrange(pos as int + 1, p as int);
            let ghost k = items@.len() as int;
            assert(rest(input@, p as int) =~= r0.subrange(consumed.len() as int + 1, r0.len() as int));
            if p >= input.len() {
                proof {
                    assert forall|v: BencodeValue| !is_prefix(#[trigger] enc(v), r0) by {
                        if is_prefix(enc(v), r0) {
                            lemma_list_step(v->List_0@, k, r0, consumed);
                        }
                    }
                }
                return Err(BencodeError::UnexpectedEof);
            }
            assert(r0[consumed.len() as int + 1] == input[p as int]);
            if input[p] == 101u8 {
                let v = BencodeValue::List(items);
                assert(input@.subrange(pos as int, p as int + 1) =~= enc(v));
                proof {
                    assert forall|x: BencodeValue| is_prefix(#[trigger] enc(x), r0) implies enc(x)
                        == enc(v) by {
                        let b = x->List_0@;
                        lemma_list_step(b, k, r0, consumed);
                        if k < b.len() {
                            lemma_enc_head(b[k]);
                            assert(rest(input@, p as int).subrange(0, enc(b[k]).len() as int)[0]
                                == input[p as int]);
                        }
                    }
                }
                return Ok((v, p + 1));
            }
            let (item, q) = match decode_at(input, p) {
                Ok(x) => x,
                Err(e) => {
                    proof {
                        assert forall|v: BencodeValue| !is_prefix(#[trigger] enc(v), r0) by {
                            if is_prefix(enc(v), r0) {
                                lemma_list_step(v->List_0@, k, r0, consumed);
                            }
                        }
                    }
                    return Err(e);
                },
            };
            proof {
                assert forall|v: BencodeValue| is_prefix(#[trigger] enc(v), r0) implies v is List
                    && v->List_0@.len() >= k + 1 && enc_list(v->List_0@.take(k + 1))
                    == input@.subrange(pos as int + 1, q as int) by {
                    let b = v->List_0@;
                    lemma_list_step(b, k, r0, consumed);
                    assert(input@.subrange(pos as int + 1, q as int) =~= consumed
                        + input@.subrange(p as int, q as int));
                }
            }
            let ghost old_items = items@;
            items.push(item);
            assert(items@.drop_last() =~= old_items);
            assert(input@.subrange(pos as int + 1, q as int) =~= input@.subrange(
                pos as int + 1,
                p as int,
            ) + input@.subrange(p as int, q as int));
            p = q;
        }
    } else if c == 100u8 {
        let mut entries: Vec<(Vec<u8>, BencodeValue)> = Vec::new();
        let mut p = pos + 1;
        proof {
            assert forall|v: BencodeValue| is_prefix(#[trigger] enc(v), r0) implies v is Dict && enc_dict(
                v->Dict_0@.take(0),
            ) == input@.subrange(pos as int + 1, pos as int + 1) by {
                lemma_enc_head(v);
                assert(v->Dict_0@.take(0) =~= Seq::<(Vec<u8>, BencodeValue)>::empty());
                assert(input@.subrange(pos as int + 1, pos as int + 1) =~= Seq::<u8>::empty());
            }
        }
        loop
            invariant
                pos < p <= input.len(),
                input@.subrange(pos as int + 1, p as int) == enc_dict(entries@),
                input[pos as int] == 100u8,
                r0 == rest(input@, pos as int),
                forall|v: BencodeValue|
                    is_prefix(#[trigger] enc(v), r0) ==> v is Dict && v->Dict_0@.len()
                        >= entries@.len() && enc_dict(v->Dict_0@.take(entries@.len() as int))
                        == input@.subrange(pos as int + 1, p as int),
            decreases input.len() - p,
        {
            let ghost consumed = input@.subrange(pos as int + 1, p as int);
            let ghost k = entries@.len() as int;
            assert(rest(input@, p as int) =~= r0.subrange(consumed.len() as int + 1, r0.len() as int));
            if p >= input.len() {
                proof {
                    assert forall|v: BencodeValue| !is_prefix(#[trigger] enc(v), r0) by {
                        if is_prefix(enc(v), r0) {
                            lemma_dict_step(v->Dict_0@, k, r0, consumed);
                        }
                    }
                }
                return Err(BencodeError::UnexpectedEof);
            }
            assert(r0[consumed.len() as int + 1] == input[p as int]);
            proof {
                assert forall|v: BencodeValue| is_prefix(#[trigger] enc(v), r0) && k < v->Dict_0@.len()
                    implies is_digit(input[p as int]) by {
                    let d = v->Dict_0@;
                    lemma_dict_step(d, k, r0, consumed);
                    lemma_enc_bytes_head(d[k].0@);
                    let entry = enc_bytes(d[k].0@) + enc(d[k].1);
                    assert(rest(input@, p as int).subrange(0, entry.len() as int)[0] == input[p as int]);
                    assert(entry[0] == enc_bytes(d[k].0@)[0]);
                }
            }
            if input[p] == 101u8 {
                let v = BencodeValue::Dict(entries);
                assert(input@.subrange(pos as int, p as int + 1) =~= enc(v));
                proof {
                    assert forall|x: BencodeValue| is_prefix(#[trigger] enc(x), r0) implies enc(x)
                        == enc(v) by {
                        lemma_dict_step(x->Dict_0@, k, r0, consumed);
                    }
                }
                return Ok((v, p + 1));
            }
            if input[p] < 48 || input[p] > 57 {
                proof {
                    assert forall|v: BencodeValue| !is_prefix(#[trigger] enc(v), r0) by {
                        if is_prefix(enc(v), r0) {
                            lemma_dict_step(v->Dict_0@, k, r0, consumed);
                        }
                    }
                }
                return Err(BencodeError::MalformedBencode);
            }
            let (key, q) = match decode_bytes_at(input, p) {
                Ok(x) => x,
                Err(e) => {
                    proof {
                        assert forall|v: BencodeValue| !is_prefix(#[trigger] enc(v), r0) by {
                            if is_prefix(enc(v), r0) {
                                let d = v->Dict_0@;
                                lemma_dict_step(d, k, r0, consumed);
                                lemma_prefix_of_concat(
                                    enc_bytes(d[k].0@),
                                    enc(d[k].1),
                                    rest(input@, p as int),
                                );
                                assert(d[k].0@.len() == d[k].0.len());
                            }
                        }
                    }
                    return Err(e);
                },
            };
            assert(rest(input@, q as int) =~= rest(input@, p as int).subrange(
                q - p,
                rest(input@, p as int).len() as int,
            ));
            proof {
                assert forall|v: BencodeValue| is_prefix(#[trigger] enc(v), r0) implies is_prefix(
                    enc(v->Dict_0@[k].1),
                    rest(input@, q as int),
                ) && enc_bytes(v->Dict_0@[k].0@) == enc_bytes(key@) by {
                    let d = v->Dict_0@;
                    lemma_dict_step(d, k, r0, consumed);
                    lemma_prefix_of_concat(enc_bytes(d[k].0@), enc(d[k].1), rest(input@, p as int));
                }
            }
            let (value, t) = match decode_at(input, q) {
                Ok(x) => x,
                Err(e) => {
                    proof {
                        assert forall|v: BencodeValue| !is_prefix(#[trigger] enc(v), r0) by {
                            if is_prefix(enc(v), r0) {
                                lemma_dict_step(v->Dict_0@, k, r0, consumed);
                            }
                        }
                    }
                    return Err(e);
                },
            };
            proof {
                assert forall|v: BencodeValue| is_prefix(#[trigger] enc(v), r0) implies v is Dict
                    && v->Dict_0@.len() >= k + 1 && enc_dict(v->Dict_0@.take(k + 1))
                    == input@.subrange(pos as int + 1, t as int) by {
                    let d = v->Dict_0@;
                    lemma_dict_step(d, k, r0, consumed);
                    assert(input@.subrange(pos as int + 1, t as int) =~= consumed
                        + input@.subrange(p as int, q as int) + input@.subrange(q as int, t as int));
                }
            }
            let ghost old_entries = entries@;
            entries.push((key, value));
            assert(entries@.drop_last() =~= old_entries);
            assert(input@.subrange(pos as int + 1, t as int) =~= input@.subrange(
                pos as int + 1,
                p as int,
            ) + input@.subrange(p as int, q as int) + input@.subrange(q as int, t as int));
            p = t;
        }
    } else {
        proof {
            assert forall|v: BencodeValue| !is_prefix(#[trigger] enc(v), r0) by {
                lemma_enc_head(v);
            }
        }
        Err(BencodeError::MalformedBencode)
    }
}

/// Decodes the value at the start of `input` and returns it with the
/// number of bytes it took; the rest of `input` is left unread. It fails
/// exactly when no value's encoding begins `input`, and what it reads is the
/// only such encoding.
pub fn decode(input: &[u8]) -> (r: Result<(BencodeValue, usize), BencodeError>)
    ensures
        r matches Ok((v, n)) ==> 0 < n <= input.len() && input@.take(n as int) == enc(v)
            && forall|x: BencodeValue| is_prefix(#[trigger] enc(x), input@) ==> enc(x) == enc(v),
        r is Err <==> forall|x: BencodeValue| !is_prefix(#[trigger] enc(x), input@),
        input.len() == 0 ==> r == Err::<(BencodeValue, usize), BencodeError>(
            BencodeError::UnexpectedEof,
        ),
        input.len() > 0 && !starts_value(input[0]) ==> r == Err::<(BencodeValue, usize), BencodeError>(
            BencodeError::MalformedBencode,
        ),
{
    let r = decode_at(input, 0);
    assert(rest(input@, 0) =~= input@);
    if let Ok((v, n)) = &r {
        assert(input@.take(*n as int) =~= input@.subrange(0, *n as int));
        assert(is_prefix(enc(*v), input@));
    }
    r
}

/// Decoding and then encoding reproduces the bytes read when every
/// dictionary there already lists its keys in ascending order: `w` and `n`
/// are what `decode` returns for `bytes` (its contract gives the first two
/// requirements), and `encode(w)`, the canonical encoding, is then exactly
/// the first `n` bytes.
pub proof fn lemma_round_trip(bytes: Seq<u8>, w: BencodeValue, n: int)
    requires
        0 < n <= bytes.len(),
        bytes.take(n) == enc(w),
        keys_ascending(w),
    ensures
        canon(w) == bytes.take(n),
{
    lemma_canon_when_ascending(w);
}

/// The value stored under the first entry whose key is `key`.
pub open spec fn lookup(s: Seq<(Vec<u8>, BencodeValue)>, key: Seq<u8>) -> Option<BencodeValue>
    decreases s.len(),
{
    if s.len() == 0 {
        None
    } else if s[0].0@ == key {
        Some(s[0].1)
    } else {
        lookup(s.drop_first(), key)
    }
}

fn bytes_equal(a: &[u8], b: &[u8]) -> (r: bool)
    ensures
        r == (a@ == b@),
{
    if a.len() != b.len() {
        return false;
    }
    let mut i: usize = 0;
    while i < a.len()
        invariant
            a.len() == b.len(),
            i <= a.len(),
            forall|j: int| 0 <= j < i ==> a[j] == b[j],
        decreases a.len() - i,
    {
        if a[i] != b[i] {
            return false;
        }
        i += 1;
    }
    assert(a@ =~= b@);
    true
}

/// The value that the dictionary entries `d` hold under `key`, the first
/// one where a key occurs twice.
pub fn dict_get<'a>(d: &'a Vec<(Vec<u8>, BencodeValue)>, key: &[u8]) -> (r: Option<
    &'a BencodeValue,
>)
    ensures
        r matches Some(x) ==> lookup(d@, key@) == Some(*x),
        r is None ==> lookup(d@, key@) is None,
{
    let mut i: usize = 0;
    assert(d@.subrange(0, d.len() as int) =~= d@);
    while i < d.len()
        invariant
            i <= d.len(),
            lookup(d@, key@) == lookup(d@.subrange(i as int, d.len() as int), key@),
        decreases d.len() - i,
    {
        let ghost rest = d@.subrange(i as int, d.len() as int);
        assert(rest[0] == d[i as int]);
        if bytes_equal(d[i].0.as_slice(), key) {
            return Some(&d[i].1);
        }
        assert(rest.drop_first() =~= d@.subrange(i as int + 1, d.len() as int));
        i += 1;
    }
    None
}

/// `a` comes before `b` in lexicographic order of raw byte values; a proper
/// prefix comes first.
pub open spec fn lex_lt(a: Seq<u8>, b: Seq<u8>) -> bool
    decreases a.len(),
{
    if a.len() == 0 {
        b.len() > 0
    } else if b.len() == 0 {
        false
    } else if a[0] != b[0] {
        a[0] < b[0]
    } else {
        lex_lt(a.drop_first(), b.drop_first())
    }
}

/// Whether `a` comes before `b` in lexicographic byte order.
fn bytes_less(a: &[u8], b: &[u8]) -> (r: bool)
    ensures
        r == lex_lt(a@, b@),
{
    let mut i: usize = 0;
    assert(a@.skip(0) =~= a@);
    assert(b@.skip(0) =~= b@);
    while i < a.len() && i < b.len()
        invariant
            i <= a.len(),
            i <= b.len(),
            lex_lt(a@, b@) == lex_lt(a@.skip(i as int), b@.skip(i as int)),
        decreases a.len() - i,
    {
        if a[i] != b[i] {
            assert(a@.skip(i as int)[0] == a[i as int]);
            assert(b@.skip(i as int)[0] == b[i as int]);
            return a[i] < b[i];
        }
        assert(a@.skip(i as int).drop_first() =~= a@.skip(i as int + 1));
        assert(b@.skip(i as int).drop_first() =~= b@.skip(i as int + 1));
        i += 1;
    }
    i == a.len() && i < b.len()
}

/// The position in `idx` of the first entry of `s` whose key is smallest
/// among those that `idx` lists.
pub open spec fn min_pos(s: Seq<(Vec<u8>, BencodeValue)>, idx: Seq<usize>) -> int
    decreases idx.len(),
{
    if idx.len() <= 1 {
        0
    } else {
        let m = min_pos(s, idx.drop_last());
        if lex_lt(s[idx.last() as int].0@, s[idx[m] as int].0@) {
            idx.len() - 1
        } else {
            m
        }
    }
}

proof fn lemma_min_pos_range(s: Seq<(Vec<u8>, BencodeValue)>, idx: Seq<usize>)
    requires
        idx.len() > 0,
    ensures
        0 <= min_pos(s, idx) < idx.len(),
    decreases idx.len(),
{
    if idx.len() > 1 {
        lemma_min_pos_range(s, idx.drop_last());
    }
}

/// The canonical encoding: as `enc`, but each dictionary's entries are
/// written in ascending order of their keys' raw bytes (entries with equal
/// keys in the order they are held).
pub open spec fn canon(v: BencodeValue) -> Seq<u8>
    decreases v, 2nat, 0nat,
{
    match v {
        BencodeValue::Bytes(b) => enc_bytes(b@),
        BencodeValue::Int(i) => enc_int(i as int),
        BencodeValue::List(l) => seq![108u8] + canon_list(l@) + seq![101u8],
        BencodeValue::Dict(d) => seq![100u8] + canon_dict(d@, Seq::new(d@.len(), |i: int| i as usize))
            + seq![101u8],
    }
}

pub open spec fn canon_list(s: Seq<BencodeValue>) -> Seq<u8>
    decreases s, 0nat, 0nat,
{
    if s.len() == 0 {
        Seq::empty()
    } else {
        canon_list(s.drop_last()) + canon(s.last())
    }
}

/// The entries of `s` that `idx` lists, smallest key first.
pub open spec fn canon_dict(s: Seq<(Vec<u8>, BencodeValue)>, idx: Seq<usize>) -> Seq<u8>
    decreases s, 1nat, idx.len(),
{
    if idx.len() == 0 {
        Seq::empty()
    } else {
        let m = min_pos(s, idx);
        if 0 <= m < idx.len() && idx[m] < s.len() {
            enc_bytes(s[idx[m] as int].0@) + canon(s[idx[m] as int].1) + canon_dict(s, idx.remove(m))
        } else {
            Seq::empty()
        }
    }
}

/// Every dictionary in `v` lists its keys in ascending order.
pub open spec fn keys_ascending(v: BencodeValue) -> bool
    decreases v, 1nat,
{
    match v {
        BencodeValue::List(l) => items_ascending(l@),
        BencodeValue::Dict(d) => sorted_keys(d@) && entries_ascending(d@),
        _ => true,
    }
}

pub open spec fn sorted_keys(s: Seq<(Vec<u8>, BencodeValue)>) -> bool {
    forall|i: int, j: int| 0 <= i < j < s.len() ==> !lex_lt(s[j].0@, s[i].0@)
}

pub open spec fn items_ascending(s: Seq<BencodeValue>) -> bool
    decreases s, 0nat,
{
    s.len() == 0 || (items_ascending(s.drop_last()) && keys_ascending(s.last()))
}

pub open spec fn entries_ascending(s: Seq<(Vec<u8>, BencodeValue)>) -> bool
    decreases s, 0nat,
{
    s.len() == 0 || (entries_ascending(s.drop_last()) && keys_ascending(s.last().1))
}

pub open spec fn index_range(a: int, n: int) -> Seq<usize> {
    Seq::new((n - a) as nat, |i: int| (a + i) as usize)
}

proof fn lemma_entries_each(s: Seq<(Vec<u8>, BencodeValue)>, a: int)
    requires
        entries_ascending(s),
        0 <= a < s.len(),
    ensures
        keys_ascending(s[a].1),
    decreases s.len(),
{
    if a < s.len() - 1 {
        lemma_entries_each(s.drop_last(), a);
    }
}

proof fn lemma_min_pos_sorted(s: Seq<(Vec<u8>, BencodeValue)>, a: int, n: int)
    requires
        sorted_keys(s),
        0 <= a < n <= s.len(),
        n <= usize::MAX,
    ensures
        min_pos(s, index_range(a, n)) == 0,
    decreases n - a,
{
    let idx = index_range(a, n);
    if idx.len() > 1 {
        assert(idx.drop_last() =~= index_range(a, n - 1));
        lemma_min_pos_sorted(s, a, n - 1);
        assert(idx.last() as int == n - 1);
        assert(idx[0] as int == a);
    }
}

/// Where every dictionary already lists its keys in ascending order, the
/// canonical encoding is the encoding as held.
pub proof fn lemma_canon_when_ascending(v: BencodeValue)
    requires
        keys_ascending(v),
    ensures
        canon(v) == enc(v),
    decreases v, 2nat, 0nat,
{
    match v {
        BencodeValue::List(l) => {
            lemma_canon_list(l@);
        },
        BencodeValue::Dict(d) => {
            assert(d@.len() == d.len());
            lemma_canon_dict(d@, 0);
            assert(Seq::new(d@.len(), |i: int| i as usize) =~= index_range(0, d@.len() as int));
            assert(d@.take(0) =~= Seq::<(Vec<u8>, BencodeValue)>::empty());
            assert(enc_dict(d@.take(0)) =~= Seq::<u8>::empty());
            assert(enc_dict(d@) =~= canon_dict(d@, index_range(0, d@.len() as int)));
        },
        _ => {},
    }
}

proof fn lemma_canon_list(s: Seq<BencodeValue>)
    requires
        items_ascending(s),
    ensures
        canon_list(s) == enc_list(s),
    decreases s, 0nat, 0nat,
{
    if s.len() > 0 {
        lemma_canon_list(s.drop_last());
        lemma_canon_when_ascending(s.last());
    }
}

proof fn lemma_canon_dict(s: Seq<(Vec<u8>, BencodeValue)>, a: int)
    requires
        sorted_keys(s),
        entries_ascending(s),
        0 <= a <= s.len(),
        s.len() <= usize::MAX,
    ensures
        enc_dict(s) == enc_dict(s.take(a)) + canon_dict(s, index_range(a, s.len() as int)),
    decreases s, 1nat, s.len() - a,
{
    let n = s.len() as int;
    let idx = index_range(a, n);
    if a == n {
        assert(s.take(a) =~= s);
        assert(idx.len() == 0);
        assert(enc_dict(s.take(a)) + Seq::<u8>::empty() =~= enc_dict(s));
    } else {
        lemma_min_pos_sorted(s, a, n);
        lemma_entries_each(s, a);
        lemma_canon_when_ascending(s[a].1);
        lemma_canon_dict(s, a + 1);
        assert(idx[0] as int == a);
        assert(idx.remove(0) =~= index_range(a + 1, n));
        assert(canon_dict(s, idx) == enc_bytes(s[a].0@) + canon(s[a].1) + canon_dict(
            s,
            index_range(a + 1, n),
        ));
        assert(s.take(a + 1).drop_last() =~= s.take(a));
        assert(s.take(a + 1).last() == s[a]);
        assert(enc_dict(s.take(a + 1)) == enc_dict(s.take(a)) + enc_bytes(s[a].0@) + enc(s[a].1));
        assert(enc_dict(s.take(a)) + canon_dict(s, idx) =~= enc_dict(s.take(a + 1)) + canon_dict(
            s,
            index_range(a + 1, n),
        ));
    }
}

} // verus!
