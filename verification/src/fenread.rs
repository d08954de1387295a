//! Reading FEN: fields, numbers, piece placement, pockets and castling rights.

use vstd::prelude::*;

use crate::fenspec::{
    checks_of, digit, fields, fields_from, find_from, integer, is_digit, is_space, letter, natural,
    number_from, plus_field, plus_numbers, pocket_count, pocket_of, square_named, trim_end,
};
use crate::types::{Piece, Square};

verus! {

/// The texts behind a list of character vectors.
pub open spec fn texts(v: Seq<Vec<char>>) -> Seq<Seq<char>> {
    v.map_values(|x: Vec<char>| x@)
}

pub(crate) fn space(c: char) -> (r: bool)
    ensures
        r == is_space(c),
{
    let u = c as u32;
    (0x9 <= u && u <= 0xd) || u == 0x20 || u == 0x85 || u == 0xa0 || u == 0x1680 || (0x2000 <= u && u
        <= 0x200a) || u == 0x2028 || u == 0x2029 || u == 0x202f || u == 0x205f || u == 0x3000
}

/// Splits a text at white space.
pub fn split_fields(s: &Vec<char>) -> (r: Vec<Vec<char>>)
    ensures
        texts(r@) == fields(s@),
{
    let mut out: Vec<Vec<char>> = Vec::new();
    let mut cur: Vec<char> = Vec::new();
    let mut i: usize = 0;
    assert(texts(out@) =~= seq![]);
    assert(texts(out@) + fields_from(s@, 0, cur@) =~= fields(s@)) by {
        assert(cur@ =~= seq![]);
    }
    while i < s.len()
        invariant
            i <= s@.len(),
            texts(out@) + fields_from(s@, i as int, cur@) == fields(s@),
        decreases s@.len() - i,
    {
        let c = s[i];
        let ghost before = texts(out@);
        if space(c) {
            if cur.len() > 0 {
                let ghost word = cur@;
                out.push(cur);
                assert(texts(out@) =~= before.push(word));
                assert(before + (seq![word] + fields_from(s@, i + 1, seq![])) =~= before.push(word)
                    + fields_from(s@, i + 1, seq![]));
                cur = Vec::new();
                assert(cur@ =~= seq![]);
            } else {
                assert(cur@ =~= seq![]);
                assert(Seq::<Seq<char>>::empty() + fields_from(s@, i + 1, seq![])
                    =~= fields_from(s@, i + 1, seq![]));
            }
        } else {
            cur.push(c);
        }
        i += 1;
    }
    let ghost before = texts(out@);
    if cur.len() > 0 {
        let ghost word = cur@;
        out.push(cur);
        assert(texts(out@) =~= before.push(word));
        assert(before + seq![word] =~= before.push(word));
    } else {
        assert(before + Seq::<Seq<char>>::empty() =~= before);
    }
    out
}

proof fn lemma_number_grows(s: Seq<char>, i: int, acc: int)
    requires
        acc >= 0,
    ensures
        number_from(s, i, acc) matches Some(n) ==> n >= acc,
    decreases s.len() - i,
{
    if 0 <= i < s.len() && is_digit(s[i]) {
        lemma_number_grows(s, i + 1, acc * 10 + digit(s[i]));
    }
}

/// The decimal number in `s` from index `start` on, up to `max`.
pub fn read_natural(s: &Vec<char>, start: usize, max: u64) -> (r: Option<u64>)
    requires
        start <= s@.len(),
    ensures
        match natural(s@.skip(start as int), max as int) {
            Some(n) => r == Some(n as u64) && 0 <= n <= max,
            None => r is None,
        },
{
    let ghost t = s@.skip(start as int);
    if start >= s.len() {
        return None;
    }
    let mut acc: u64 = 0;
    let mut i: usize = start;
    while i < s.len()
        invariant
            start <= i <= s@.len(),
            t == s@.skip(start as int),
            t.len() > 0,
            0 <= acc <= max,
            number_from(t, i - start, acc as int) == number_from(t, 0, 0),
        decreases s@.len() - i,
    {
        let c = s[i];
        assert(t[i - start] == c);
        if c < '0' || c > '9' {
            return None;
        }
        let d: u64 = (c as u32 - '0' as u32) as u64;
        i += 1;
        if acc > (u64::MAX - d) / 10 || acc * 10 + d > max {
            proof {
                lemma_number_grows(t, i - start, acc * 10 + d);
            }
            return None;
        }
        acc = acc * 10 + d;
    }
    Some(acc)
}

/// The signed number a text spells.
pub fn read_integer(s: &Vec<char>) -> (r: Option<i32>)
    ensures
        match integer(s@) {
            Some(n) => r == Some(n as i32) && i32::MIN <= n <= i32::MAX,
            None => r is None,
        },
{
    if s.len() == 0 {
        return None;
    }
    if s[0] == '-' {
        return match read_natural(s, 1, 0x8000_0000) {
            Some(n) => Some((-(n as i64)) as i32),
            None => None,
        };
    }
    if s[0] == '+' {
        return match read_natural(s, 1, 0x7fff_ffff) {
            Some(n) => Some(n as i32),
            None => None,
        };
    }
    assert(s@.skip(0) =~= s@);
    match read_natural(s, 0, 0x7fff_ffff) {
        Some(n) => Some(n as i32),
        None => None,
    }
}

/// First index of `c`, or the length.
pub fn find_char(s: &Vec<char>, c: char) -> (r: usize)
    ensures
        r == find_from(s@, c, 0),
        r <= s@.len(),
{
    let mut i: usize = 0;
    while i < s.len()
        invariant
            i <= s@.len(),
            find_from(s@, c, i as int) == find_from(s@, c, 0),
        decreases s@.len() - i,
    {
        if s[i] == c {
            return i;
        }
        i += 1;
    }
    i
}

/// The characters from `from` up to `to`.
pub fn slice_of(s: &Vec<char>, from: usize, to: usize) -> (r: Vec<char>)
    requires
        from <= to <= s@.len(),
    ensures
        r@ == s@.subrange(from as int, to as int),
{
    let mut out: Vec<char> = Vec::new();
    let mut i: usize = from;
    while i < to
        invariant
            from <= i <= to <= s@.len(),
            out@ == s@.subrange(from as int, i as int),
        decreases to - i,
    {
        out.push(s[i]);
        i += 1;
        assert(out@ =~= s@.subrange(from as int, i as int));
    }
    out
}

/// Takes the given characters off the end.
pub fn trim_right(s: Vec<char>, c: char) -> (r: Vec<char>)
    ensures
        r@ == trim_end(s@, c),
{
    let mut s = s;
    let ghost all = s@;
    while s.len() > 0 && s[s.len() - 1] == c
        invariant
            trim_end(s@, c) == trim_end(all, c),
        decreases s@.len(),
    {
        let ghost before = s@;
        s.pop();
        assert(s@ =~= before.drop_last());
    }
    s
}

/// Checks a three-check field says each side has given.
pub fn read_checks(s: &Vec<char>) -> (r: [u8; 2])
    ensures
        r@[0] == checks_of(s@).0,
        r@[1] == checks_of(s@).1,
        r@[0] <= 3,
        r@[1] <= 3,
{
    let mut nums: Vec<u8> = Vec::new();
    let mut cur: Vec<char> = Vec::new();
    let mut i: usize = 0;
    let ghost all = plus_numbers(s@, 0, seq![]);
    assert(cur@ =~= seq![]);
    assert(numbers(nums@) + plus_numbers(s@, 0, cur@) =~= all);
    while i < s.len()
        invariant
            i <= s@.len(),
            all == plus_numbers(s@, 0, seq![]),
            numbers(nums@) + plus_numbers(s@, i as int, cur@) == all,
        decreases s@.len() - i,
    {
        let c = s[i];
        if c == '+' {
            let ghost before = numbers(nums@);
            let ghost tail = plus_numbers(s@, i + 1, seq![]);
            assert(cur@.skip(0) =~= cur@);
            match read_natural(&cur, 0, 255) {
                Some(n) => {
                    nums.push(n as u8);
                    assert(numbers(nums@) =~= before.push(n as int));
                    assert(before + (seq![n as int] + tail) =~= before.push(n as int) + tail);
                },
                None => {
                    assert(Seq::<int>::empty() + tail =~= tail);
                },
            }
            cur = Vec::new();
            assert(cur@ =~= seq![]);
        } else {
            cur.push(c);
        }
        i += 1;
    }
    let ghost before = numbers(nums@);
    assert(cur@.skip(0) =~= cur@);
    match read_natural(&cur, 0, 255) {
        Some(n) => {
            nums.push(n as u8);
            assert(numbers(nums@) =~= before.push(n as int));
            assert(before + seq![n as int] =~= before.push(n as int));
        },
        None => {
            assert(before + Seq::<int>::empty() =~= before);
        },
    }
    assert(numbers(nums@) == all);
    if nums.len() != 2 {
        return [0, 0];
    }
    assert(all[0] == nums@[0] && all[1] == nums@[1]);
    let a: u8 = if nums[0] < 3 {
        nums[0]
    } else {
        3
    };
    let b: u8 = if nums[1] < 3 {
        nums[1]
    } else {
        3
    };
    if s.len() > 0 && s[0] == '+' {
        [a, b]
    } else {
        [3 - a, 3 - b]
    }
}

/// Bytes as integers.
pub open spec fn numbers(v: Seq<u8>) -> Seq<int> {
    v.map_values(|x: u8| x as int)
}

/// Index of the first field from the fourth on that holds a plus sign, or the number of
/// fields.
pub fn find_plus_field(f: &Vec<Vec<char>>) -> (r: usize)
    ensures
        r == plus_field(texts(f@), 3) || (f@.len() < 3 && r == 3),
        r < f@.len() <==> plus_field(texts(f@), 3) < f@.len(),
{
    let mut i: usize = 3;
    while i < f.len()
        invariant
            3 <= i,
            i <= f@.len() || i == 3,
            plus_field(texts(f@), i as int) == plus_field(texts(f@), 3),
        decreases f@.len() - i,
    {
        assert(texts(f@)[i as int] == f@[i as int]@);
        if find_char(&f[i], '+') < f[i].len() {
            return i;
        }
        i += 1;
    }
    i
}

/// The square a text starts with.
pub fn read_square(s: &Vec<char>) -> (r: Option<Square>)
    ensures
        match square_named(s@) {
            Some(e) => r == Some(e as Square) && 0 <= e < 64,
            None => r is None,
        },
{
    if s.len() < 2 {
        return None;
    }
    let f = s[0];
    let k = s[1];
    if f < 'a' || f > 'h' || k < '1' || k > '8' {
        return None;
    }
    let x: u8 = f as u8 - 'a' as u8;
    let y: u8 = k as u8 - '1' as u8;
    Some(y * 8 + x)
}

/// The piece a letter stands for.
pub fn read_letter(c: char) -> (r: Option<Piece>)
    ensures
        r == letter(c),
        r matches Some(p) ==> p.0 < 12,
{
    let r = Piece::from_char(c);
    proof {
        if r is None {
            assert(Piece(0).to_char() != c && Piece(1).to_char() != c && Piece(2).to_char() != c
                && Piece(3).to_char() != c && Piece(4).to_char() != c && Piece(5).to_char() != c
                && Piece(6).to_char() != c && Piece(7).to_char() != c && Piece(8).to_char() != c
                && Piece(9).to_char() != c && Piece(10).to_char() != c && Piece(11).to_char() != c);
        }
    }
    r
}

/// Counts a pocket text: pieces of each kind, each at most `255`; `None` beyond sixteen.
pub fn read_pocket(s: &Vec<char>) -> (r: Option<[[u8; 5]; 2]>)
    ensures
        r is None <==> crate::fenspec::pocket_too_full(s@),
        r matches Some(h) ==> forall|c: int, p: int|
            0 <= c < 2 && 0 <= p < 5 ==> #[trigger] h@[c]@[p] == pocket_of(s@, 6 * c + p)
                && h@[c]@[p] <= 16,
{
    let mut h: [[u8; 5]; 2] = [[0;5];2];
    let mut i: usize = 0;
    while i < s.len()
        invariant
            i <= s@.len(),
            forall|c: int, p: int|
                0 <= c < 2 && 0 <= p < 5 ==> #[trigger] h@[c]@[p] == pocket_count(
                    s@,
                    6 * c + p,
                    i as nat,
                ) && h@[c]@[p] <= 16,
        decreases s@.len() - i,
    {
        let l = read_letter(s[i]);
        match l {
            Some(pc) => {
                if pc.0 != 5 && pc.0 != 11 {
                    let c: usize = pc.color().idx();
                    let p: usize = pc.piece_type().idx();
                    let mut row = h[c];
                    if row[p] >= 16 {
                        proof {
                            assert(h@[c as int]@[p as int] == pocket_count(
                                s@,
                                6 * c + p,
                                i as nat,
                            ));
                            lemma_pocket_mono(s@, 6 * c + p, (i + 1) as nat, s@.len());
                            assert(pocket_of(s@, 6 * c + p) > 16);
                        }
                        return None;
                    }
                    let ghost h0 = h;
                    row[p] = row[p] + 1;
                    h[c] = row;
                    proof {
                        assert forall|d: int, q: int|
                            0 <= d < 2 && 0 <= q < 5 implies #[trigger] h@[d]@[q] == pocket_count(
                            s@,
                            6 * d + q,
                            (i + 1) as nat,
                        ) && h@[d]@[q] <= 16 by {
                            assert(h0@[d]@[q] == pocket_count(s@, 6 * d + q, i as nat));
                        }
                    }
                } else {
                    proof {
                        assert forall|d: int, q: int|
                            0 <= d < 2 && 0 <= q < 5 implies #[trigger] h@[d]@[q] == pocket_count(
                            s@,
                            6 * d + q,
                            (i + 1) as nat,
                        ) && h@[d]@[q] <= 16 by {
                            assert(h@[d]@[q] == pocket_count(s@, 6 * d + q, i as nat));
                        }
                    }
                }
            },
            None => {},
        }
        i += 1;
    }
    proof {
        assert forall|p: int| 0 <= p < 12 && p != 5 && p != 11 implies #[trigger] pocket_of(s@, p)
            <= 16 by {
            let c = p / 6;
            assert(h@[c]@[p % 6] == pocket_count(s@, 6 * c + p % 6, s@.len()));
        }
    }
    Some(h)
}

proof fn lemma_pocket_mono(s: Seq<char>, p: int, i: nat, n: nat)
    requires
        i <= n <= s.len(),
    ensures
        pocket_count(s, p, i) <= pocket_count(s, p, n),
    decreases n - i,
{
    if i < n {
        lemma_pocket_mono(s, p, i, (n - 1) as nat);
    }
}

} // verus!
