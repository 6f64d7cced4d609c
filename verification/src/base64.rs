//! Standard (RFC 4648) base64 with padding, which a clipboard sequence carries
//! its text in.

use vstd::prelude::*;

verus! {

/// The character standing for six bits.
pub open spec fn sextet(n: int) -> char {
    if n < 26 {
        (('A' as u32) + n) as char
    } else if n < 52 {
        (('a' as u32) + (n - 26)) as char
    } else if n < 62 {
        (('0' as u32) + (n - 52)) as char
    } else if n == 62 {
        '+'
    } else {
        '/'
    }
}

/// Three bytes as one number, missing ones read as zero.
pub open spec fn group(data: Seq<u8>) -> int {
    let b1 = if data.len() > 1 { data[1] as int } else { 0 };
    let b2 = if data.len() > 2 { data[2] as int } else { 0 };
    data[0] * 65536 + b1 * 256 + b2
}

/// `data` in base64: four characters for every three bytes, `=` standing in for
/// what a last short group has no bytes for.
pub open spec fn encoded(data: Seq<u8>) -> Seq<char>
    decreases data.len(),
{
    if data.len() == 0 {
        Seq::empty()
    } else {
        let n = group(data);
        seq![
            sextet(n / 262144),
            sextet(n / 4096 % 64),
            if data.len() > 1 {
                sextet(n / 64 % 64)
            } else {
                '='
            },
            if data.len() > 2 {
                sextet(n % 64)
            } else {
                '='
            },
        ] + encoded(
            data.skip(
                if data.len() < 3 {
                    data.len() as int
                } else {
                    3
                },
            ),
        )
    }
}

fn sextet_char(n: u32) -> (c: char)
    requires
        n < 64,
    ensures
        c == sextet(n as int),
{
    let b: u8 = if n < 26 {
        65 + n as u8
    } else if n < 52 {
        97 + (n - 26) as u8
    } else if n < 62 {
        48 + (n - 52) as u8
    } else if n == 62 {
        43
    } else {
        47
    };
    b as char
}

/// `data` in base64.
pub fn base64(data: &[u8]) -> (out: String)
    ensures
        out@ == encoded(data@),
{
    let mut out: String = String::new();
    let mut i: usize = 0;
    assert(data@.skip(0) =~= data@);
    assert(out@ + encoded(data@) =~= encoded(data@));
    while i < data.len()
        invariant
            i <= data@.len(),
            out@ + encoded(data@.skip(i as int)) == encoded(data@),
        decreases data.len() - i,
    {
        let left: usize = data.len() - i;
        let ghost rest = data@.skip(i as int);
        let ghost was = out@;
        let b0: u32 = data[i] as u32;
        let b1: u32 = if left > 1 {
            data[i + 1] as u32
        } else {
            0
        };
        let b2: u32 = if left > 2 {
            data[i + 2] as u32
        } else {
            0
        };
        let n: u32 = b0 * 65536 + b1 * 256 + b2;
        assert(n == group(rest));
        out.push(sextet_char(n / 262144));
        out.push(sextet_char(n / 4096 % 64));
        out.push(
            if left > 1 {
                sextet_char(n / 64 % 64)
            } else {
                '='
            },
        );
        out.push(
            if left > 2 {
                sextet_char(n % 64)
            } else {
                '='
            },
        );
        let step: usize = if left < 3 {
            left
        } else {
            3
        };
        assert(rest.skip(step as int) =~= data@.skip(i + step));
        assert(out@ + encoded(data@.skip(i + step)) =~= was + encoded(rest));
        i += step;
    }
    assert(encoded(data@.skip(i as int)) =~= Seq::empty());
    assert(out@ =~= encoded(data@));
    out
}

/// Base64 takes four characters for every three bytes begun.
pub proof fn encoded_length(data: Seq<u8>)
    ensures
        encoded(data).len() == (data.len() + 2) / 3 * 4,
    decreases data.len(),
{
    if data.len() > 0 {
        encoded_length(
            data.skip(
                if data.len() < 3 {
                    data.len() as int
                } else {
                    3
                },
            ),
        );
    }
}

proof fn lemma_sextets_differ(a: int, b: int)
    requires
        0 <= a < 64,
        0 <= b < 64,
    ensures
        sextet(a) != '=',
        sextet(a) == sextet(b) ==> a == b,
{
    assert(sextet(a) as u32 == if a < 26 {
        65 + a
    } else if a < 52 {
        97 + (a - 26)
    } else if a < 62 {
        48 + (a - 52)
    } else if a == 62 {
        43
    } else {
        47
    });
    assert(sextet(b) as u32 == if b < 26 {
        65 + b
    } else if b < 52 {
        97 + (b - 26)
    } else if b < 62 {
        48 + (b - 52)
    } else if b == 62 {
        43
    } else {
        47
    });
}

/// The bytes of the first group of `data`: three of them, or what there is.
pub open spec fn first_group(data: Seq<u8>) -> int {
    if data.len() < 3 {
        data.len() as int
    } else {
        3
    }
}

proof fn lemma_digits(n: int, m: int)
    requires
        0 <= n < 16777216,
        0 <= m < 16777216,
        n / 262144 == m / 262144,
        n / 4096 % 64 == m / 4096 % 64,
    ensures
        n / 65536 == m / 65536,
        n / 64 % 64 == m / 64 % 64 ==> n / 256 == m / 256,
        n / 64 % 64 == m / 64 % 64 && n % 64 == m % 64 ==> n == m,
{
    assert(n / 262144 == n / 4096 / 64);
    assert(m / 262144 == m / 4096 / 64);
    assert(n / 4096 == m / 4096);
    assert(n / 65536 == n / 4096 / 16);
    assert(m / 65536 == m / 4096 / 16);
    if n / 64 % 64 == m / 64 % 64 {
        assert(n / 4096 == n / 64 / 64);
        assert(m / 4096 == m / 64 / 64);
        assert(n / 64 == m / 64);
        assert(n / 256 == n / 64 / 4);
        assert(m / 256 == m / 64 / 4);
    }
}

proof fn lemma_bytes(data: Seq<u8>)
    requires
        data.len() > 0,
    ensures
        0 <= group(data) < 16777216,
        group(data) / 65536 == data[0],
        data.len() > 1 ==> group(data) / 256 % 256 == data[1],
        data.len() > 2 ==> group(data) % 256 == data[2],
{
}

proof fn lemma_quad(data: Seq<u8>)
    requires
        data.len() > 0,
    ensures
        ({
            let n = group(data);
            let x = encoded(data);
            &&& x.len() >= 4
            &&& x[0] == sextet(n / 262144)
            &&& x[1] == sextet(n / 4096 % 64)
            &&& x[2] == (if data.len() > 1 {
                sextet(n / 64 % 64)
            } else {
                '='
            })
            &&& x[3] == (if data.len() > 2 {
                sextet(n % 64)
            } else {
                '='
            })
            &&& x.skip(4) == encoded(data.skip(first_group(data)))
        }),
{
    assert(encoded(data).skip(4) =~= encoded(data.skip(first_group(data))));
}

proof fn lemma_first_group(a: Seq<u8>, b: Seq<u8>)
    requires
        a.len() > 0,
        b.len() > 0,
        encoded(a) == encoded(b),
    ensures
        first_group(a) == first_group(b),
        a.take(first_group(a)) == b.take(first_group(b)),
        encoded(a.skip(first_group(a))) == encoded(b.skip(first_group(b))),
{
    let n = group(a);
    let m = group(b);
    lemma_quad(a);
    lemma_quad(b);
    lemma_bytes(a);
    lemma_bytes(b);
    lemma_sextets_differ(n / 262144, m / 262144);
    lemma_sextets_differ(n / 4096 % 64, m / 4096 % 64);
    lemma_sextets_differ(n / 64 % 64, m / 64 % 64);
    lemma_sextets_differ(m / 64 % 64, n / 64 % 64);
    lemma_sextets_differ(n % 64, m % 64);
    lemma_sextets_differ(m % 64, n % 64);
    lemma_digits(n, m);
    assert(first_group(a) == first_group(b));
    assert(a.take(first_group(a)) =~= b.take(first_group(b)));
}

/// Nothing is lost: different bytes read differently in base64.
pub proof fn encodings_differ(a: Seq<u8>, b: Seq<u8>)
    requires
        encoded(a) == encoded(b),
    ensures
        a == b,
    decreases a.len(),
{
    encoded_length(a);
    encoded_length(b);
    if a.len() > 0 && b.len() > 0 {
        lemma_first_group(a, b);
        let k = first_group(a);
        encodings_differ(a.skip(k), b.skip(k));
        assert(a =~= a.take(k) + a.skip(k));
        assert(b =~= b.take(k) + b.skip(k));
    } else {
        assert(a =~= b);
    }
}

/// The sixty-four characters of base64, in order.
pub proof fn the_alphabet_is_the_usual_one(n: int)
    requires
        0 <= n < 64,
    ensures
        sextet(n)
            == "ABCDEFGHIJKLMNOPQRSTUVWXYZabcdefghijklmnopqrstuvwxyz0123456789+/"@[n],
{
    reveal_strlit("ABCDEFGHIJKLMNOPQRSTUVWXYZabcdefghijklmnopqrstuvwxyz0123456789+/");
}

/// Three bytes are four characters, six bits each from the highest down; bytes behind
/// them make characters of their own.
pub proof fn three_bytes_are_four_characters(a: u8, b: u8, c: u8, rest: Seq<u8>)
    ensures
        ({
            let n = 65536 * a + 256 * b + c;
            let four = seq![
                sextet(n / 262144),
                sextet(n / 4096 % 64),
                sextet(n / 64 % 64),
                sextet(n % 64),
            ];
            encoded(seq![a, b, c] + rest) == four + encoded(rest)
        }),
{
    let data = seq![a, b, c] + rest;
    assert(data.skip(3) =~= rest);
    assert(data[0] == a && data[1] == b && data[2] == c);
}

/// What is left over at the end is filled up with equals signs: two for one byte, one for
/// two.
pub proof fn the_end_is_filled_up(a: u8, b: u8)
    ensures
        encoded(Seq::empty()).len() == 0,
        encoded(seq![a]) == seq![sextet(a as int / 4), sextet(a as int % 4 * 16), '=', '='],
        encoded(seq![a, b]) == seq![
            sextet(a as int / 4),
            sextet(a as int % 4 * 16 + b as int / 16),
            sextet(b as int % 16 * 4),
            '=',
        ],
{
    reveal_with_fuel(encoded, 2);
    let one = seq![a];
    let two = seq![a, b];
    assert(one.skip(1) =~= Seq::<u8>::empty());
    assert(two.skip(2) =~= Seq::<u8>::empty());
    assert(group(one) == 65536 * a);
    assert(group(two) == 65536 * a + 256 * b);
    let n = 65536 * a;
    let m = 65536 * a + 256 * b;
    assert(n / 262144 == a as int / 4);
    assert(n / 4096 % 64 == a as int % 4 * 16);
    assert(m / 262144 == a as int / 4);
    assert(m / 4096 % 64 == a as int % 4 * 16 + b as int / 16);
    assert(m / 64 % 64 == b as int % 16 * 4);
    assert(encoded(one) =~= seq![sextet(a as int / 4), sextet(a as int % 4 * 16), '=', '=']);
    assert(encoded(two) =~= seq![
        sextet(a as int / 4),
        sextet(a as int % 4 * 16 + b as int / 16),
        sextet(b as int % 16 * 4),
        '=',
    ]);
}

} // verus!
