//! Numbers and node lists as bytes.

use vstd::prelude::*;

verus! {

/// The number whose base-256 digits are `s`, lowest first.
pub open spec fn le_value(s: Seq<u8>) -> nat
    decreases s.len(),
{
    if s.len() == 0 {
        0
    } else {
        s[0] as nat + 256 * le_value(s.drop_first())
    }
}

/// The lowest `n` base-256 digits of `x`, lowest first.
pub open spec fn le_digits(x: nat, n: nat) -> Seq<u8>
    decreases n,
{
    if n == 0 {
        Seq::empty()
    } else {
        seq![(x % 256) as u8] + le_digits(x / 256, (n - 1) as nat)
    }
}

/// The number whose base-256 digits are `s`, highest first.
pub open spec fn be_value(s: Seq<u8>) -> nat {
    le_value(s.reverse())
}

/// The lowest `n` base-256 digits of `x`, highest first.
pub open spec fn be_digits(x: nat, n: nat) -> Seq<u8> {
    le_digits(x, n).reverse()
}

/// The two's complement reading of a 32-bit number.
pub open spec fn signed32(x: nat) -> int {
    if x < 0x8000_0000 {
        x as int
    } else {
        x - 0x1_0000_0000
    }
}

/// Which byte of a number comes first in memory.
#[derive(Clone, Copy, Debug, PartialEq, Eq, Structural)]
pub enum ByteOrder {
    LowFirst,
    HighFirst,
}

/// The lowest `n` base-256 digits of `x`, in an order.
pub open spec fn digits_in(order: ByteOrder, x: nat, n: nat) -> Seq<u8> {
    match order {
        ByteOrder::LowFirst => le_digits(x, n),
        ByteOrder::HighFirst => be_digits(x, n),
    }
}

/// The number whose base-256 digits are `s`, in an order.
pub open spec fn value_in(order: ByteOrder, s: Seq<u8>) -> nat {
    match order {
        ByteOrder::LowFirst => le_value(s),
        ByteOrder::HighFirst => be_value(s),
    }
}

/// The number of bytes of a node: a word of the machine.
pub open spec fn word_size() -> nat {
    (usize::BITS / 8) as nat
}

/// The nodes as they lie in memory: consecutive words.
pub open spec fn words_to_bytes(order: ByteOrder, nodes: Seq<usize>) -> Seq<u8>
    decreases nodes.len(),
{
    if nodes.len() == 0 {
        Seq::empty()
    } else {
        words_to_bytes(order, nodes.drop_last()) + digits_in(
            order,
            nodes.last() as nat,
            word_size(),
        )
    }
}

/// The whole words in `bytes`; bytes past the last whole word are left out.
pub open spec fn bytes_to_words(order: ByteOrder, bytes: Seq<u8>) -> Seq<usize> {
    Seq::new(
        bytes.len() / word_size(),
        |i: int|
            value_in(
                order,
                bytes.subrange(word_size() * i, word_size() * i + word_size()),
            ) as usize,
    )
}

/// The digits are as many as asked for, and make up the number again.
pub proof fn lemma_le_digits(x: nat, n: nat)
    ensures
        le_digits(x, n).len() == n,
        n == 4 && x <= u32::MAX ==> le_value(le_digits(x, n)) == x,
        n == 8 && x <= u64::MAX ==> le_value(le_digits(x, n)) == x,
{
    lemma_le_digits_rest(x, n);
    if n == 4 && x <= u32::MAX {
        reveal_with_fuel(pow256, 5);
    }
    if n == 8 && x <= u64::MAX {
        reveal_with_fuel(pow256, 9);
    }
}

spec fn pow256(n: nat) -> nat
    decreases n,
{
    if n == 0 {
        1
    } else {
        256 * pow256((n - 1) as nat)
    }
}

proof fn lemma_le_digits_rest(x: nat, n: nat)
    ensures
        le_digits(x, n).len() == n,
        x < pow256(n) ==> le_value(le_digits(x, n)) == x,
    decreases n,
{
    if n > 0 {
        lemma_le_digits_rest(x / 256, (n - 1) as nat);
        assert(le_digits(x, n).drop_first() =~= le_digits(x / 256, (n - 1) as nat));
    }
}

/// A number with `n` digits is below `256^n`.
proof fn lemma_le_value_bound(s: Seq<u8>)
    ensures
        le_value(s) < pow256(s.len()),
    decreases s.len(),
{
    if s.len() > 0 {
        lemma_le_value_bound(s.drop_first());
    }
}

/// Eight bytes as a number, lowest byte first.
pub fn u64_le(bytes: &[u8; 8]) -> (x: u64)
    ensures
        x == le_value(bytes@),
{
    assert(bytes@.subrange(0, 8) =~= bytes@);
    u64_le_at(bytes, 0)
}

/// The bytes at `at`, as many as `n`, as a number, lowest byte first.
fn le_at(bytes: &[u8], at: usize, n: usize) -> (x: u64)
    requires
        at + n <= bytes@.len(),
        n <= 8,
    ensures
        x == le_value(bytes@.subrange(at as int, at + n)),
        n <= 4 ==> x <= u32::MAX,
{
    let ghost s = bytes@.subrange(at as int, at + n);
    let mut x: u64 = 0;
    let mut k: usize = n;
    proof {
        assert(s.skip(n as int) =~= Seq::<u8>::empty());
    }
    while k > 0
        invariant
            k <= n <= 8,
            at + n <= bytes@.len(),
            s == bytes@.subrange(at as int, at + n),
            x == le_value(s.skip(k as int)),
        decreases k,
    {
        k = k - 1;
        proof {
            assert(s.skip(k as int).drop_first() =~= s.skip(k + 1));
            lemma_le_value_bound(s.skip(k as int));
            reveal_with_fuel(pow256, 9);
            assert(s[k as int] == bytes@[at + k]);
            assert(bytes.len() == bytes@.len());
        }
        x = bytes[at + k] as u64 + 256 * x;
    }
    proof {
        assert(s.skip(0) =~= s);
        lemma_le_value_bound(s);
        reveal_with_fuel(pow256, 9);
    }
    x
}

/// The eight bytes at `at` as a number, lowest byte first.
pub fn u64_le_at(bytes: &[u8], at: usize) -> (x: u64)
    requires
        at + 8 <= bytes@.len(),
    ensures
        x == le_value(bytes@.subrange(at as int, at + 8)),
{
    le_at(bytes, at, 8)
}

/// The four bytes at `at` as a number, lowest byte first.
pub fn u32_le_at(bytes: &[u8], at: usize) -> (x: u32)
    requires
        at + 4 <= bytes@.len(),
    ensures
        x == le_value(bytes@.subrange(at as int, at + 4)),
{
    le_at(bytes, at, 4) as u32
}

/// Four bytes as a signed number, lowest byte first.
pub fn i32_le(bytes: &[u8; 4]) -> (x: i32)
    ensures
        x == signed32(le_value(bytes@)),
{
    assert(bytes@.subrange(0, 4) =~= bytes@);
    i32_le_at(bytes, 0)
}

/// The four bytes at `at` as a signed number, lowest byte first.
pub fn i32_le_at(bytes: &[u8], at: usize) -> (x: i32)
    requires
        at + 4 <= bytes@.len(),
    ensures
        x == signed32(le_value(bytes@.subrange(at as int, at + 4))),
{
    let x: u32 = u32_le_at(bytes, at);
    if x < 0x8000_0000 {
        x as i32
    } else {
        -((u32::MAX - x) as i32) - 1
    }
}

/// The bytes at `at`, as many as `n`, as a number, highest byte first.
fn be_at(bytes: &[u8], at: usize, n: usize) -> (x: u64)
    requires
        at + n <= bytes@.len(),
        n <= 8,
    ensures
        x == be_value(bytes@.subrange(at as int, at + n)),
        n <= 4 ==> x <= u32::MAX,
{
    let ghost s = bytes@.subrange(at as int, at + n);
    let mut x: u64 = 0;
    let mut k: usize = 0;
    assert(s.take(0).reverse() =~= Seq::<u8>::empty());
    while k < n
        invariant
            k <= n <= 8,
            at + n <= bytes@.len(),
            s == bytes@.subrange(at as int, at + n),
            x == be_value(s.take(k as int)),
        decreases n - k,
    {
        proof {
            let longer = s.take(k + 1).reverse();
            assert(longer.drop_first() =~= s.take(k as int).reverse());
            assert(longer[0] == s[k as int]);
            assert(s[k as int] == bytes@[at + k]);
            assert(bytes.len() == bytes@.len());
            lemma_le_value_bound(longer);
            reveal_with_fuel(pow256, 9);
        }
        x = bytes[at + k] as u64 + 256 * x;
        k = k + 1;
    }
    proof {
        assert(s.take(n as int) =~= s);
        lemma_le_value_bound(s.reverse());
        reveal_with_fuel(pow256, 9);
    }
    x
}

/// The first four bytes as a number, highest byte first.
pub fn u32_be_prefix(bytes: &[u8]) -> (x: u32)
    requires
        bytes@.len() >= 4,
    ensures
        x == be_value(bytes@.take(4)),
{
    assert(bytes@.take(4) =~= bytes@.subrange(0, 4));
    be_at(bytes, 0, 4) as u32
}

/// The first eight bytes as a number, highest byte first.
pub fn u64_be_prefix(bytes: &[u8]) -> (x: u64)
    requires
        bytes@.len() >= 8,
    ensures
        x == be_value(bytes@.take(8)),
{
    assert(bytes@.take(8) =~= bytes@.subrange(0, 8));
    be_at(bytes, 0, 8)
}

/// Appends the lowest `n` digits of `x`, lowest first.
fn push_le(out: &mut Vec<u8>, x: u64, n: usize)
    ensures
        final(out)@ == old(out)@ + le_digits(x as nat, n as nat),
{
    let mut rest: u64 = x;
    let mut k: usize = 0;
    assert(out@ + le_digits(x as nat, n as nat) == old(out)@ + le_digits(x as nat, n as nat));
    while k < n
        invariant
            k <= n,
            out@ + le_digits(rest as nat, (n - k) as nat) == old(out)@ + le_digits(
                x as nat,
                n as nat,
            ),
        decreases n - k,
    {
        let ghost before = out@;
        let ghost digits = le_digits(rest as nat, (n - k) as nat);
        let byte: u8 = (rest % 256) as u8;
        out.push(byte);
        proof {
            assert(out@ + le_digits((rest / 256) as nat, (n - k - 1) as nat) =~= before + digits);
        }
        rest = rest / 256;
        k = k + 1;
    }
    assert(out@ + le_digits(rest as nat, 0) =~= out@);
}

/// Appends the lowest `n` digits of `x`, highest first.
fn push_be(out: &mut Vec<u8>, x: u64, n: usize)
    ensures
        final(out)@ == old(out)@ + be_digits(x as nat, n as nat),
{
    let mut low: Vec<u8> = Vec::new();
    push_le(&mut low, x, n);
    let ghost digits = low@;
    proof {
        lemma_le_digits_rest(x as nat, n as nat);
        assert(low@ =~= le_digits(x as nat, n as nat));
        assert(digits.reverse().take(0) =~= Seq::<u8>::empty());
    }
    let mut k: usize = low.len();
    while k > 0
        invariant
            k <= low@.len(),
            low@ == digits,
            out@ =~= old(out)@ + digits.reverse().take(digits.len() - k),
        decreases k,
    {
        k = k - 1;
        let byte: u8 = low[k];
        out.push(byte);
        assert(digits.reverse()[digits.len() - 1 - k] == digits[k as int]);
    }
    assert(digits.reverse().take(digits.len() as int) =~= digits.reverse());
}

/// Appends `x` as four bytes, highest first.
pub fn push_u32_be(out: &mut Vec<u8>, x: u32)
    ensures
        final(out)@ == old(out)@ + be_digits(x as nat, 4),
{
    push_be(out, x as u64, 4)
}

/// Appends `x` as eight bytes, highest first.
pub fn push_u64_be(out: &mut Vec<u8>, x: u64)
    ensures
        final(out)@ == old(out)@ + be_digits(x as nat, 8),
{
    push_be(out, x, 8)
}

/// `u16::to_ne_bytes`: the two bytes of a number as they lie in the memory of this machine,
/// which has either the lowest or the highest one first. Which of them is not claimed.
#[verifier::external_body]
fn to_ne_bytes(x: u16) -> (bytes: [u8; 2])
    ensures
        bytes@ == le_digits(x as nat, 2) || bytes@ == be_digits(x as nat, 2),
{
    x.to_ne_bytes()
}

/// The order of a machine in whose memory the number one looks so.
pub fn order_of(one: [u8; 2]) -> (order: ByteOrder)
    requires
        one@ == le_digits(1, 2) || one@ == be_digits(1, 2),
    ensures
        one@ == digits_in(order, 1, 2),
{
    reveal_with_fuel(le_digits, 3);
    assert(le_digits(1, 2) =~= seq![1u8, 0u8]);
    assert(be_digits(1, 2) =~= seq![0u8, 1u8]);
    if one[0] == 1 {
        ByteOrder::LowFirst
    } else {
        ByteOrder::HighFirst
    }
}

/// The order of this machine.
pub fn native_order() -> (order: ByteOrder) {
    order_of(to_ne_bytes(1))
}

/// The number of bytes of a node.
fn word_len() -> (n: usize)
    ensures
        n == word_size(),
        n == 4 || n == 8,
        n == 4 ==> usize::MAX == u32::MAX,
{
    (usize::BITS / 8) as usize
}

/// The word at `at`.
fn word_at(order: ByteOrder, bytes: &[u8], at: usize) -> (x: usize)
    requires
        at + word_size() <= bytes@.len(),
    ensures
        x == value_in(order, bytes@.subrange(at as int, at + word_size())),
{
    let n: usize = word_len();
    let x: u64 = match order {
        ByteOrder::LowFirst => le_at(bytes, at, n),
        ByteOrder::HighFirst => be_at(bytes, at, n),
    };
    x as usize
}

/// Appends a node list, one word for each node.
pub fn push_words(out: &mut Vec<u8>, order: ByteOrder, nodes: &[usize])
    ensures
        final(out)@ == old(out)@ + words_to_bytes(order, nodes@),
{
    let n: usize = word_len();
    let mut j: usize = 0;
    assert(nodes@.take(0) =~= Seq::<usize>::empty());
    while j < nodes.len()
        invariant
            j <= nodes.len(),
            n == word_size(),
            out@ =~= old(out)@ + words_to_bytes(order, nodes@.take(j as int)),
        decreases nodes.len() - j,
    {
        proof {
            assert(nodes@.take(j + 1).drop_last() =~= nodes@.take(j as int));
            assert(nodes@.take(j + 1).last() == nodes@[j as int]);
        }
        match order {
            ByteOrder::LowFirst => push_le(out, nodes[j] as u64, n),
            ByteOrder::HighFirst => push_be(out, nodes[j] as u64, n),
        }
        j = j + 1;
    }
    assert(nodes@.take(nodes@.len() as int) =~= nodes@);
}

/// The node list that whole words spell.
pub fn read_words(order: ByteOrder, bytes: &[u8]) -> (nodes: Vec<usize>)
    ensures
        nodes@ == bytes_to_words(order, bytes@),
{
    let n: usize = word_len();
    let total: usize = bytes.len() / n;
    let mut nodes: Vec<usize> = Vec::with_capacity(total);
    let mut j: usize = 0;
    while j < total
        invariant
            j <= total,
            n == word_size(),
            n == 4 || n == 8,
            total == bytes@.len() / word_size(),
            nodes@ =~= bytes_to_words(order, bytes@).take(j as int),
        decreases total - j,
    {
        proof {
            assert(bytes.len() == bytes@.len());
            lemma_word_fits(n as int, j as int, bytes@.len() as int);
        }
        let x: usize = word_at(order, bytes, n * j);
        nodes.push(x);
        j = j + 1;
    }
    assert(bytes_to_words(order, bytes@).take(total as int) =~= bytes_to_words(order, bytes@));
    nodes
}

/// A whole word lies inside the bytes.
proof fn lemma_word_fits(n: int, j: int, len: int)
    requires
        n == 4 || n == 8,
        0 <= j < len / n,
    ensures
        0 <= n * j,
        n * j + n <= len,
{
    if n == 4 {
        assert(4 * j + 4 <= len);
    } else {
        assert(8 * j + 8 <= len);
    }
}

/// The digits of a word are as many as it has bytes, and make it up again.
proof fn lemma_word_digits(order: ByteOrder, x: usize)
    ensures
        digits_in(order, x as nat, word_size()).len() == word_size(),
        value_in(order, digits_in(order, x as nat, word_size())) == x,
{
    assert(word_size() == 4 || word_size() == 8);
    lemma_le_digits(x as nat, word_size());
    be_round_trip(x as nat, word_size());
}

/// The words of an encoded list, one word at a time.
proof fn lemma_word_at(order: ByteOrder, nodes: Seq<usize>, i: int)
    requires
        0 <= i < nodes.len(),
    ensures
        words_to_bytes(order, nodes).len() == word_size() * nodes.len(),
        0 <= word_size() * i,
        word_size() * i + word_size() <= words_to_bytes(order, nodes).len(),
        words_to_bytes(order, nodes).subrange(word_size() * i, word_size() * i + word_size())
            == digits_in(order, nodes[i] as nat, word_size()),
    decreases nodes.len(),
{
    let n = word_size() as int;
    let rest = nodes.drop_last();
    let head = words_to_bytes(order, rest);
    let tail = digits_in(order, nodes.last() as nat, word_size());
    lemma_word_digits(order, nodes.last());
    if rest.len() > 0 {
        lemma_word_at(order, rest, 0);
    }
    let count = nodes.len() as int;
    assert(n * (count - 1) + n == n * count) by (nonlinear_arith);
    assert(0 <= n * i && n * i + n <= n * count) by (nonlinear_arith)
        requires
            0 <= i < count,
            0 <= n,
    ;
    assert(n * 0 == 0) by (nonlinear_arith);
    if i < rest.len() {
        lemma_word_at(order, rest, i);
        assert((head + tail).subrange(n * i, n * i + n) =~= head.subrange(n * i, n * i + n));
    } else {
        assert((head + tail).subrange(n * i, n * i + n) =~= tail);
    }
}

/// A node list survives being written out and read back, on machines of the same order.
pub proof fn words_round_trip(order: ByteOrder, nodes: Seq<usize>)
    ensures
        words_to_bytes(order, nodes).len() == word_size() * nodes.len(),
        bytes_to_words(order, words_to_bytes(order, nodes)) == nodes,
{
    let n = word_size() as int;
    let count = nodes.len() as int;
    if nodes.len() > 0 {
        lemma_word_at(order, nodes, 0);
    } else {
        assert(n * 0 == 0) by (nonlinear_arith);
    }
    assert((n * count) / n == count) by (nonlinear_arith)
        requires
            n == 4 || n == 8,
    ;
    let back = bytes_to_words(order, words_to_bytes(order, nodes));
    assert forall|i: int| 0 <= i < nodes.len() implies back[i] == nodes[i] by {
        lemma_word_at(order, nodes, i);
        lemma_word_digits(order, nodes[i]);
    }
    assert(back =~= nodes);
}

/// The digits of a number, highest first, read back.
pub proof fn be_round_trip(x: nat, n: nat)
    ensures
        be_digits(x, n).len() == n,
        n == 4 && x <= u32::MAX ==> be_value(be_digits(x, n)) == x,
        n == 8 && x <= u64::MAX ==> be_value(be_digits(x, n)) == x,
{
    lemma_le_digits(x, n);
    assert(be_digits(x, n).reverse() =~= le_digits(x, n));
}

/// Four bytes, lowest first, count ones, 256s, 65536s and 16777216s.
pub proof fn le_value_of_four(s: Seq<u8>)
    requires
        s.len() == 4,
    ensures
        le_value(s) == s[0] + 0x100 * s[1] + 0x1_0000 * s[2] + 0x100_0000 * s[3],
{
    reveal_with_fuel(le_value, 5);
}

/// Eight bytes, lowest first, each count 256 times as much as the one before.
pub proof fn le_value_of_eight(s: Seq<u8>)
    requires
        s.len() == 8,
    ensures
        le_value(s) == s[0] + 0x100 * s[1] + 0x1_0000 * s[2] + 0x100_0000 * s[3] + 0x1_0000_0000
            * s[4] + 0x100_0000_0000 * s[5] + 0x1_0000_0000_0000 * s[6] + 0x100_0000_0000_0000
            * s[7],
{
    reveal_with_fuel(le_value, 9);
}

/// Four bytes, highest first, are the same bytes the other way round.
pub proof fn be_value_of_four(s: Seq<u8>)
    requires
        s.len() == 4,
    ensures
        be_value(s) == s[3] + 0x100 * s[2] + 0x1_0000 * s[1] + 0x100_0000 * s[0],
{
    le_value_of_four(s.reverse());
}

/// Eight bytes, highest first, are the same bytes the other way round.
pub proof fn be_value_of_eight(s: Seq<u8>)
    requires
        s.len() == 8,
    ensures
        be_value(s) == s[7] + 0x100 * s[6] + 0x1_0000 * s[5] + 0x100_0000 * s[4] + 0x1_0000_0000
            * s[3] + 0x100_0000_0000 * s[2] + 0x1_0000_0000_0000 * s[1] + 0x100_0000_0000_0000
            * s[0],
{
    le_value_of_eight(s.reverse());
}

/// The signed reading is the one number of 32 bits with a sign that agrees with the unsigned
/// reading modulo `2^32`.
pub proof fn signed32_is_congruent(x: nat)
    requires
        x <= u32::MAX,
    ensures
        i32::MIN <= signed32(x) <= i32::MAX,
        signed32(x) == x || signed32(x) + 0x1_0000_0000 == x,
{
}

/// The two orders have the same digits, the other way round.
pub proof fn orders_mirror(x: nat, n: nat, s: Seq<u8>)
    ensures
        digits_in(ByteOrder::HighFirst, x, n) == digits_in(ByteOrder::LowFirst, x, n).reverse(),
        value_in(ByteOrder::HighFirst, s) == value_in(ByteOrder::LowFirst, s.reverse()),
        value_in(ByteOrder::LowFirst, s) == le_value(s),
        digits_in(ByteOrder::LowFirst, x, n) == le_digits(x, n),
{
}

/// Lists one after the other are written one after the other.
pub proof fn words_concatenate(order: ByteOrder, a: Seq<usize>, b: Seq<usize>)
    ensures
        words_to_bytes(order, a + b) == words_to_bytes(order, a) + words_to_bytes(order, b),
    decreases b.len(),
{
    if b.len() == 0 {
        assert(a + b =~= a);
        assert(words_to_bytes(order, a) + words_to_bytes(order, b) =~= words_to_bytes(order, a));
    } else {
        words_concatenate(order, a, b.drop_last());
        assert((a + b).drop_last() =~= a + b.drop_last());
        assert(words_to_bytes(order, a + b) =~= words_to_bytes(order, a) + words_to_bytes(
            order,
            b,
        ));
    }
}

/// Each word of a list is the bytes at its place, lowest or highest first.
pub proof fn words_are_positional(order: ByteOrder, bytes: Seq<u8>, i: int)
    requires
        0 <= i < bytes.len() as int / word_size() as int,
    ensures
        word_size() == 4 || word_size() == 8,
        bytes_to_words(order, bytes).len() == bytes.len() / word_size(),
        word_size() == 8 && order == ByteOrder::LowFirst ==> bytes_to_words(order, bytes)[i]
            == bytes[8 * i] + 0x100 * bytes[8 * i + 1] + 0x1_0000 * bytes[8 * i + 2] + 0x100_0000
            * bytes[8 * i + 3] + 0x1_0000_0000 * bytes[8 * i + 4] + 0x100_0000_0000 * bytes[8 * i
            + 5] + 0x1_0000_0000_0000 * bytes[8 * i + 6] + 0x100_0000_0000_0000 * bytes[8 * i + 7],
        word_size() == 8 && order == ByteOrder::HighFirst ==> bytes_to_words(order, bytes)[i]
            == bytes[8 * i + 7] + 0x100 * bytes[8 * i + 6] + 0x1_0000 * bytes[8 * i + 5]
            + 0x100_0000 * bytes[8 * i + 4] + 0x1_0000_0000 * bytes[8 * i + 3] + 0x100_0000_0000
            * bytes[8 * i + 2] + 0x1_0000_0000_0000 * bytes[8 * i + 1] + 0x100_0000_0000_0000
            * bytes[8 * i],
        word_size() == 4 && order == ByteOrder::LowFirst ==> bytes_to_words(order, bytes)[i]
            == bytes[4 * i] + 0x100 * bytes[4 * i + 1] + 0x1_0000 * bytes[4 * i + 2] + 0x100_0000
            * bytes[4 * i + 3],
        word_size() == 4 && order == ByteOrder::HighFirst ==> bytes_to_words(order, bytes)[i]
            == bytes[4 * i + 3] + 0x100 * bytes[4 * i + 2] + 0x1_0000 * bytes[4 * i + 1]
            + 0x100_0000 * bytes[4 * i],
{
    let n = word_size() as int;
    lemma_word_fits(n, i, bytes.len() as int);
    let s = bytes.subrange(n * i, n * i + n);
    assert(n == 4 ==> n * i == 4 * i);
    assert(n == 8 ==> n * i == 8 * i);
    if n == 8 {
        le_value_of_eight(s);
        be_value_of_eight(s);
    } else {
        le_value_of_four(s);
        be_value_of_four(s);
    }
}

} // verus!
