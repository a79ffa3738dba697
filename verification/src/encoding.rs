use vstd::prelude::*;

use crate::config::CharacterSet;
use crate::config::Config;

verus! {

/// The character at position `i` of the 64-symbol alphabet selected by `cs`.
/// Positions 0..62 are shared by both alphabets (`A`-`Z`, `a`-`z`, `0`-`9`);
/// the alphabets differ only at positions 62 and 63.
pub open spec fn alphabet_char(cs: CharacterSet, i: int) -> char
    recommends
        0 <= i < 64,
{
    if i < 26 {
        (('A' as u8) + i) as u8 as char
    } else if i < 52 {
        (('a' as u8) + (i - 26)) as u8 as char
    } else if i < 62 {
        (('0' as u8) + (i - 52)) as u8 as char
    } else if i == 62 {
        match cs {
            CharacterSet::Standard => '+',
            CharacterSet::UrlSafe => '-',
        }
    } else {
        match cs {
            CharacterSet::Standard => '/',
            CharacterSet::UrlSafe => '_',
        }
    }
}

/// The four symbols that encode a full group of three bytes: the 24 bits are
/// read as four 6-bit alphabet positions, most significant first.
pub open spec fn encode_group(cs: CharacterSet, b0: u8, b1: u8, b2: u8) -> Seq<char> {
    seq![
        alphabet_char(cs, b0 as int / 4),
        alphabet_char(cs, (b0 as int % 4) * 16 + b1 as int / 16),
        alphabet_char(cs, (b1 as int % 16) * 4 + b2 as int / 64),
        alphabet_char(cs, b2 as int % 64),
    ]
}

/// The three symbols that encode a final partial group of two bytes: the 16
/// bits become three 6-bit positions, the last padded with two zero bits.
pub open spec fn encode_rem2(cs: CharacterSet, b0: u8, b1: u8) -> Seq<char> {
    seq![
        alphabet_char(cs, b0 as int / 4),
        alphabet_char(cs, (b0 as int % 4) * 16 + b1 as int / 16),
        alphabet_char(cs, (b1 as int % 16) * 4),
    ]
}

/// The two symbols that encode a final partial group of one byte: the 8 bits
/// become two 6-bit positions, the second padded with four zero bits.
pub open spec fn encode_rem1(cs: CharacterSet, b0: u8) -> Seq<char> {
    seq![alphabet_char(cs, b0 as int / 4), alphabet_char(cs, (b0 as int % 4) * 16)]
}

/// The alphabet symbols that encode `b`: the input is split into groups of
/// three bytes, in order, and each group contributes its symbols.
pub open spec fn encoded_symbols(b: Seq<u8>, cs: CharacterSet) -> Seq<char>
    decreases b.len(),
{
    if b.len() >= 3 {
        encode_group(cs, b[0], b[1], b[2]) + encoded_symbols(b.skip(3), cs)
    } else if b.len() == 2 {
        encode_rem2(cs, b[0], b[1])
    } else if b.len() == 1 {
        encode_rem1(cs, b[0])
    } else {
        Seq::empty()
    }
}

/// How many `=` characters pad the encoding of an input of `n` bytes to a
/// multiple of four symbols.
pub open spec fn pad_width(n: nat) -> nat {
    if n % 3 == 0 {
        0
    } else {
        (3 - n % 3) as nat
    }
}

/// The `=` padding that follows the symbols of an input of `n` bytes when
/// padding is enabled.
pub open spec fn padding(n: nat) -> Seq<char> {
    Seq::new(pad_width(n), |i: int| '=')
}

/// The encoded text before line wrapping: the alphabet symbols, followed by
/// `=` padding when `cfg.pad` is set.
pub open spec fn unwrapped_output(b: Seq<u8>, cfg: Config) -> Seq<char> {
    encoded_symbols(b, cfg.char_set) + if cfg.pad {
        padding(b.len())
    } else {
        Seq::empty()
    }
}

/// `s` broken into lines of `n` characters by `'\n'`: a break follows every
/// `n` characters, but never stands at the very end of the output.
pub open spec fn wrapped_lines(s: Seq<char>, n: nat) -> Seq<char>
    recommends
        n >= 1,
    decreases s.len(),
{
    if n == 0 || s.len() <= n {
        s
    } else {
        s.take(n as int) + seq!['\n'] + wrapped_lines(s.skip(n as int), n)
    }
}

/// `s` with a `'\n'` before every character: the degenerate wrapping applied
/// when a line length of zero is asked for.
pub open spec fn break_before_each(s: Seq<char>) -> Seq<char>
    decreases s.len(),
{
    if s.len() == 0 {
        s
    } else {
        seq!['\n', s[0]] + break_before_each(s.skip(1))
    }
}

/// The base64 encoding of the byte sequence `b` under `cfg`: symbols and
/// padding, line-wrapped when `cfg.line_length` is set.
pub open spec fn encoded(b: Seq<u8>, cfg: Config) -> Seq<char> {
    let u = unwrapped_output(b, cfg);
    match cfg.line_length {
        None => u,
        Some(n) => if n == 0 {
            break_before_each(u)
        } else {
            wrapped_lines(u, n as nat)
        },
    }
}

/// Relies on `String::push`: appends the given character to the end of the
/// string.
#[verifier::external_body]
fn push_char(out: &mut String, c: char)
    ensures
        final(out)@ == old(out)@.push(c),
{
    out.push(c);
}

/// The character at position `i` of the alphabet selected by `cs`.
fn alphabet_symbol(cs: CharacterSet, i: u8) -> (c: char)
    requires
        i < 64,
    ensures
        c == alphabet_char(cs, i as int),
{
    if i < 26 {
        (('A' as u8) + i) as char
    } else if i < 52 {
        (('a' as u8) + (i - 26)) as char
    } else if i < 62 {
        (('0' as u8) + (i - 52)) as char
    } else if i == 62 {
        match cs {
            CharacterSet::Standard => '+',
            CharacterSet::UrlSafe => '-',
        }
    } else {
        match cs {
            CharacterSet::Standard => '/',
            CharacterSet::UrlSafe => '_',
        }
    }
}

/// Emits the symbols and padding of the encoding of `bytes`, before line
/// wrapping.
fn encode_unwrapped(bytes: &[u8], config: Config) -> (v: Vec<char>)
    ensures
        v@ == unwrapped_output(bytes@, config),
{
    let cs = config.char_set;
    let n = bytes.len();
    let mut v: Vec<char> = Vec::new();
    let mut i: usize = 0;
    proof {
        assert(bytes@.skip(0) =~= bytes@);
        assert(Seq::<char>::empty() + encoded_symbols(bytes@, cs) =~= encoded_symbols(bytes@, cs));
    }
    while n - i >= 3
        invariant
            i <= n,
            n == bytes@.len(),
            v@ + encoded_symbols(bytes@.skip(i as int), cs) == encoded_symbols(bytes@, cs),
        decreases n - i,
    {
        let b0 = bytes[i];
        let b1 = bytes[i + 1];
        let b2 = bytes[i + 2];
        let ghost v0 = v@;
        v.push(alphabet_symbol(cs, b0 / 4));
        v.push(alphabet_symbol(cs, (b0 % 4) * 16 + b1 / 16));
        v.push(alphabet_symbol(cs, (b1 % 16) * 4 + b2 / 64));
        v.push(alphabet_symbol(cs, b2 % 64));
        proof {
            let rest = bytes@.skip(i as int);
            assert(rest[0] == b0 && rest[1] == b1 && rest[2] == b2);
            assert(v@ =~= v0 + encode_group(cs, b0, b1, b2));
            assert(rest.skip(3) =~= bytes@.skip(i as int + 3));
        }
        i = i + 3;
    }
    if n - i == 2 {
        let b0 = bytes[i];
        let b1 = bytes[i + 1];
        let ghost v0 = v@;
        v.push(alphabet_symbol(cs, b0 / 4));
        v.push(alphabet_symbol(cs, (b0 % 4) * 16 + b1 / 16));
        v.push(alphabet_symbol(cs, (b1 % 16) * 4));
        proof {
            let rest = bytes@.skip(i as int);
            assert(rest[0] == b0 && rest[1] == b1);
            assert(v@ =~= v0 + encode_rem2(cs, b0, b1));
        }
    } else if n - i == 1 {
        let b0 = bytes[i];
        let ghost v0 = v@;
        v.push(alphabet_symbol(cs, b0 / 4));
        v.push(alphabet_symbol(cs, (b0 % 4) * 16));
        proof {
            let rest = bytes@.skip(i as int);
            assert(rest[0] == b0);
            assert(v@ =~= v0 + encode_rem1(cs, b0));
        }
    }
    proof {
        assert(v@ =~= encoded_symbols(bytes@, cs));
    }
    if config.pad {
        let r = n % 3;
        if r == 1 {
            v.push('=');
            v.push('=');
        } else if r == 2 {
            v.push('=');
        }
        proof {
            assert(v@ =~= encoded_symbols(bytes@, cs) + padding(bytes@.len()));
        }
    }
    proof {
        assert(v@ =~= unwrapped_output(bytes@, config));
    }
    v
}

/// Appends the characters of `v` from position `from` up to `to` onto `out`.
fn push_range(out: &mut String, v: &Vec<char>, from: usize, to: usize)
    requires
        from <= to,
        to <= v@.len(),
    ensures
        final(out)@ == old(out)@ + v@.subrange(from as int, to as int),
{
    let mut k = from;
    while k < to
        invariant
            from <= k <= to <= v@.len(),
            out@ == old(out)@ + v@.subrange(from as int, k as int),
        decreases to - k,
    {
        push_char(out, v[k]);
        proof {
            assert((old(out)@ + v@.subrange(from as int, k as int)).push(v@[k as int]) =~= old(
                out,
            )@ + v@.subrange(from as int, k as int + 1));
        }
        k = k + 1;
    }
    proof {
        assert(out@ =~= old(out)@ + v@.subrange(from as int, to as int));
    }
}

proof fn lemma_break_before_each_push(s: Seq<char>, c: char)
    ensures
        break_before_each(s.push(c)) == break_before_each(s) + seq!['\n', c],
    decreases s.len(),
{
    if s.len() == 0 {
        assert(s.push(c)[0] == c);
        assert(s.push(c).skip(1) =~= s);
        assert(break_before_each(s.push(c)) == seq!['\n', c] + break_before_each(s));
        assert(seq!['\n', c] + break_before_each(s) =~= break_before_each(s) + seq!['\n', c]);
    } else {
        assert(s.push(c)[0] == s[0]);
        assert(s.push(c).skip(1) =~= s.skip(1).push(c));
        lemma_break_before_each_push(s.skip(1), c);
        assert(break_before_each(s.push(c)) == seq!['\n', s[0]] + (break_before_each(s.skip(1))
            + seq!['\n', c]));
        assert(seq!['\n', s[0]] + (break_before_each(s.skip(1)) + seq!['\n', c]) =~= (seq![
            '\n',
            s[0],
        ] + break_before_each(s.skip(1))) + seq!['\n', c]);
    }
}

/// Converts `bytes` to base64 text following the format configuration
/// `config`.
pub fn encode(bytes: &[u8], config: Config) -> (text: String)
    ensures
        text@ == encoded(bytes@, config),
{
    let unwrapped = encode_unwrapped(bytes, config);
    let len = unwrapped.len();
    let mut text = String::new();
    match config.line_length {
        None => {
            push_range(&mut text, &unwrapped, 0, len);
            proof {
                assert(unwrapped@.subrange(0, len as int) =~= unwrapped@);
            }
        },
        Some(n) => {
            if n == 0 {
                let mut j: usize = 0;
                while j < len
                    invariant
                        j <= len,
                        len == unwrapped@.len(),
                        text@ == break_before_each(unwrapped@.take(j as int)),
                    decreases len - j,
                {
                    push_char(&mut text, '\n');
                    push_char(&mut text, unwrapped[j]);
                    proof {
                        lemma_break_before_each_push(unwrapped@.take(j as int), unwrapped@[j as int]);
                        assert(unwrapped@.take(j as int).push(unwrapped@[j as int]) =~= unwrapped@.take(j as int + 1));
                    }
                    j = j + 1;
                }
                proof {
                    assert(unwrapped@.take(len as int) =~= unwrapped@);
                }
            } else {
                let mut j: usize = 0;
                proof {
                    assert(unwrapped@.skip(0) =~= unwrapped@);
                    assert(Seq::<char>::empty() + wrapped_lines(unwrapped@, n as nat)
                        =~= wrapped_lines(unwrapped@, n as nat));
                }
                while len - j > n
                    invariant
                        j <= len,
                        len == unwrapped@.len(),
                        n >= 1,
                        text@ + wrapped_lines(unwrapped@.skip(j as int), n as nat) == wrapped_lines(
                            unwrapped@,
                            n as nat,
                        ),
                    decreases len - j,
                {
                    push_range(&mut text, &unwrapped, j, j + n);
                    push_char(&mut text, '\n');
                    proof {
                        let s = unwrapped@.skip(j as int);
                        assert(s.take(n as int) =~= unwrapped@.subrange(j as int, j as int + n as int));
                        assert(s.skip(n as int) =~= unwrapped@.skip(j as int + n as int));
                    }
                    j = j + n;
                }
                push_range(&mut text, &unwrapped, j, len);
                proof {
                    assert(unwrapped@.skip(j as int) =~= unwrapped@.subrange(j as int, len as int));
                }
            }
        },
    }
    text
}

/// A trait for converting a value to base64 encoding.
pub trait ToBase64 {
    /// The sequence of bytes that `self` stands for.
    spec fn byte_seq(&self) -> Seq<u8>;

    /// Converts the value of `self` to a base64 value following the specified
    /// format configuration, returning the owned string.
    fn to_base64(&self, config: Config) -> (text: String)
        ensures
            text@ == encoded(self.byte_seq(), config),
    ;
}

impl ToBase64 for [u8] {
    open spec fn byte_seq(&self) -> Seq<u8> {
        self@
    }

    fn to_base64(&self, config: Config) -> (text: String) {
        encode(self, config)
    }
}

} // verus!
