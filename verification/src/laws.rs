use vstd::prelude::*;

use crate::config::CharacterSet;
use crate::config::Config;
use crate::config::spec_standard;
use crate::encoding::alphabet_char;
use crate::encoding::break_before_each;
use crate::encoding::encode_group;
use crate::encoding::encode_rem1;
use crate::encoding::encode_rem2;
use crate::encoding::encoded;
use crate::encoding::encoded_symbols;
use crate::encoding::pad_width;
use crate::encoding::padding;
use crate::encoding::unwrapped_output;
use crate::encoding::wrapped_lines;

verus! {

/// True of the characters that standard base64 output may contain: the
/// standard alphabet together with the `=` padding character.
pub open spec fn standard_output_char(c: char) -> bool {
    ('A' <= c && c <= 'Z') || ('a' <= c && c <= 'z') || ('0' <= c && c <= '9') || c == '+' || c
        == '/' || c == '='
}

/// True of characters drawn from the alphabet selected by `cs`.
pub open spec fn alphabet_member(cs: CharacterSet, c: char) -> bool {
    exists|j: int| 0 <= j < 64 && c == alphabet_char(cs, j)
}

/// Every alphabet position yields a character of the chosen alphabet, and no
/// position yields `=` or a line break.
proof fn lemma_alphabet_char_shape(cs: CharacterSet, i: int)
    requires
        0 <= i < 64,
    ensures
        cs == CharacterSet::Standard ==> standard_output_char(alphabet_char(cs, i)),
        alphabet_char(cs, i) != '\n',
        alphabet_char(cs, i) != '=',
{
}

/// Every character that `encoded_symbols` emits belongs to the chosen
/// alphabet.
proof fn lemma_symbols_members(b: Seq<u8>, cs: CharacterSet)
    ensures
        forall|i: int|
            0 <= i < encoded_symbols(b, cs).len() ==> alphabet_member(
                cs,
                #[trigger] encoded_symbols(b, cs)[i],
            ),
    decreases b.len(),
{
    let s = encoded_symbols(b, cs);
    if b.len() >= 3 {
        lemma_symbols_members(b.skip(3), cs);
        assert forall|i: int| 0 <= i < s.len() implies alphabet_member(cs, s[i]) by {
            if i < 4 {
                assert(s[i] == encode_group(cs, b[0], b[1], b[2])[i]);
                assert(s[0] == alphabet_char(cs, b[0] as int / 4));
                assert(s[1] == alphabet_char(cs, (b[0] as int % 4) * 16 + b[1] as int / 16));
                assert(s[2] == alphabet_char(cs, (b[1] as int % 16) * 4 + b[2] as int / 64));
                assert(s[3] == alphabet_char(cs, b[2] as int % 64));
            } else {
                assert(s[i] == encoded_symbols(b.skip(3), cs)[i - 4]);
            }
        }
    } else if b.len() == 2 {
        assert forall|i: int| 0 <= i < s.len() implies alphabet_member(cs, s[i]) by {
            assert(s[0] == alphabet_char(cs, b[0] as int / 4));
            assert(s[1] == alphabet_char(cs, (b[0] as int % 4) * 16 + b[1] as int / 16));
            assert(s[2] == alphabet_char(cs, (b[1] as int % 16) * 4));
        }
    } else if b.len() == 1 {
        assert forall|i: int| 0 <= i < s.len() implies alphabet_member(cs, s[i]) by {
            assert(s[0] == alphabet_char(cs, b[0] as int / 4));
            assert(s[1] == alphabet_char(cs, (b[0] as int % 4) * 16));
        }
    }
}

/// No character of the unwrapped output is a line break.
proof fn lemma_unwrapped_no_newline(b: Seq<u8>, cfg: Config)
    ensures
        forall|i: int|
            0 <= i < unwrapped_output(b, cfg).len() ==> #[trigger] unwrapped_output(b, cfg)[i]
                != '\n',
{
    let u = unwrapped_output(b, cfg);
    let s = encoded_symbols(b, cfg.char_set);
    lemma_symbols_members(b, cfg.char_set);
    assert forall|i: int| 0 <= i < u.len() implies u[i] != '\n' by {
        if i < s.len() {
            assert(u[i] == s[i]);
            let j = choose|j: int| 0 <= j < 64 && s[i] == alphabet_char(cfg.char_set, j);
            lemma_alphabet_char_shape(cfg.char_set, j);
        } else {
            assert(u[i] == '=');
        }
    }
}

/// For all byte sequences, the standard configuration's output draws only on
/// `A`-`Z`, `a`-`z`, `0`-`9`, `+`, `/` and `=`.
pub proof fn lemma_standard_output_chars(b: Seq<u8>)
    ensures
        forall|i: int|
            0 <= i < encoded(b, spec_standard()).len() ==> standard_output_char(
                #[trigger] encoded(b, spec_standard())[i],
            ),
{
    let cfg = spec_standard();
    let out = encoded(b, cfg);
    let s = encoded_symbols(b, cfg.char_set);
    lemma_symbols_members(b, cfg.char_set);
    assert forall|i: int| 0 <= i < out.len() implies standard_output_char(out[i]) by {
        if i < s.len() {
            assert(out[i] == s[i]);
            let j = choose|j: int| 0 <= j < 64 && s[i] == alphabet_char(cfg.char_set, j);
            lemma_alphabet_char_shape(cfg.char_set, j);
        } else {
            assert(out[i] == '=');
        }
    }
}

/// Empty input yields empty output under every configuration.
pub proof fn lemma_empty_input(cfg: Config)
    ensures
        encoded(Seq::<u8>::empty(), cfg) == Seq::<char>::empty(),
{
    let u = unwrapped_output(Seq::<u8>::empty(), cfg);
    assert(encoded_symbols(Seq::<u8>::empty(), cfg.char_set) == Seq::<char>::empty());
    assert(u =~= Seq::<char>::empty());
}

/// The number of symbols that `encoded_symbols` emits: four per full group of
/// three bytes, three for a final pair, two for a final single byte.
proof fn lemma_symbols_len(b: Seq<u8>, cs: CharacterSet)
    ensures
        encoded_symbols(b, cs).len() == 4 * (b.len() / 3) + (if b.len() % 3 == 0 {
            0int
        } else {
            b.len() % 3 + 1int
        }),
    decreases b.len(),
{
    if b.len() >= 3 {
        lemma_symbols_len(b.skip(3), cs);
        assert(b.skip(3).len() == b.len() - 3);
    }
}

/// Length law: with padding enabled and no line wrapping, the output holds
/// exactly `4 * ceil(input length / 3)` characters.
pub proof fn lemma_padded_length(b: Seq<u8>, cfg: Config)
    requires
        cfg.pad,
        cfg.line_length is None,
    ensures
        encoded(b, cfg).len() == 4 * ((b.len() + 2) / 3),
{
    lemma_symbols_len(b, cfg.char_set);
    let len = b.len() as int;
    let q = len / 3;
    let r = len % 3;
    vstd::arithmetic::div_mod::lemma_fundamental_div_mod(len, 3);
    if r == 0 {
        vstd::arithmetic::div_mod::lemma_div_multiples_vanish_fancy(q, 2, 3);
        assert(len + 2 == 3 * q + 2);
    } else if r == 1 {
        vstd::arithmetic::div_mod::lemma_div_multiples_vanish_fancy(q + 1, 0, 3);
        assert(len + 2 == 3 * (q + 1) + 0);
    } else {
        vstd::arithmetic::div_mod::lemma_div_multiples_vanish_fancy(q + 1, 1, 3);
        assert(len + 2 == 3 * (q + 1) + 1);
    }
}

/// With no line wrapping, disabling padding removes exactly the trailing `=`
/// characters: the unpadded output is the padded output shorn of its padding,
/// it is a prefix of the padded output, and it holds no `=` at all.
pub proof fn lemma_pad_toggle(b: Seq<u8>, cfg: Config)
    requires
        cfg.pad,
        cfg.line_length is None,
    ensures
        ({
            let nopad = Config { char_set: cfg.char_set, pad: false, line_length: cfg.line_length };
            &&& encoded(b, cfg) == encoded(b, nopad) + padding(b.len())
            &&& encoded(b, nopad) == encoded(b, cfg).take(
                encoded(b, cfg).len() - pad_width(b.len()),
            )
            &&& forall|i: int|
                0 <= i < encoded(b, nopad).len() ==> #[trigger] encoded(b, nopad)[i] != '='
        }),
{
    let nopad = Config { char_set: cfg.char_set, pad: false, line_length: cfg.line_length };
    let s = encoded_symbols(b, cfg.char_set);
    assert(encoded(b, nopad) =~= s);
    assert(encoded(b, cfg) =~= s + padding(b.len()));
    assert(encoded(b, nopad) =~= encoded(b, cfg).take(encoded(b, cfg).len() - pad_width(b.len())));
    lemma_symbols_members(b, cfg.char_set);
    assert forall|i: int| 0 <= i < encoded(b, nopad).len() implies encoded(b, nopad)[i] != '=' by {
        let j = choose|j: int| 0 <= j < 64 && s[i] == alphabet_char(cfg.char_set, j);
        lemma_alphabet_char_shape(cfg.char_set, j);
    }
}

/// `+` and `/` replaced by their URL safe counterparts `-` and `_`; every
/// other character kept as it is.
pub open spec fn to_url_safe_char(c: char) -> char {
    if c == '+' {
        '-'
    } else if c == '/' {
        '_'
    } else {
        c
    }
}

/// Position by position, the URL safe alphabet is the standard alphabet with
/// `+` and `/` replaced.
proof fn lemma_alphabet_char_url(i: int)
    requires
        0 <= i < 64,
    ensures
        alphabet_char(CharacterSet::UrlSafe, i) == to_url_safe_char(
            alphabet_char(CharacterSet::Standard, i),
        ),
{
}

/// The URL safe symbols of `b` are the standard symbols with `+` and `/`
/// replaced.
proof fn lemma_symbols_url(b: Seq<u8>)
    ensures
        encoded_symbols(b, CharacterSet::UrlSafe) == encoded_symbols(
            b,
            CharacterSet::Standard,
        ).map_values(|c: char| to_url_safe_char(c)),
    decreases b.len(),
{
    let std_s = encoded_symbols(b, CharacterSet::Standard);
    let url_s = encoded_symbols(b, CharacterSet::UrlSafe);
    if b.len() >= 3 {
        lemma_symbols_url(b.skip(3));
        lemma_alphabet_char_url(b[0] as int / 4);
        lemma_alphabet_char_url((b[0] as int % 4) * 16 + b[1] as int / 16);
        lemma_alphabet_char_url((b[1] as int % 16) * 4 + b[2] as int / 64);
        lemma_alphabet_char_url(b[2] as int % 64);
        assert(url_s =~= std_s.map_values(|c: char| to_url_safe_char(c)));
    } else if b.len() == 2 {
        lemma_alphabet_char_url(b[0] as int / 4);
        lemma_alphabet_char_url((b[0] as int % 4) * 16 + b[1] as int / 16);
        lemma_alphabet_char_url((b[1] as int % 16) * 4);
        assert(url_s =~= std_s.map_values(|c: char| to_url_safe_char(c)));
    } else if b.len() == 1 {
        lemma_alphabet_char_url(b[0] as int / 4);
        lemma_alphabet_char_url((b[0] as int % 4) * 16);
        assert(url_s =~= std_s.map_values(|c: char| to_url_safe_char(c)));
    } else {
        assert(url_s =~= std_s.map_values(|c: char| to_url_safe_char(c)));
    }
}

/// Replacing `+` and `/` commutes with line wrapping: a line break is neither
/// `+` nor `/`, so it is kept where it stands.
proof fn lemma_wrapped_lines_url(s: Seq<char>, n: nat)
    ensures
        wrapped_lines(s.map_values(|c: char| to_url_safe_char(c)), n) == wrapped_lines(
            s,
            n,
        ).map_values(|c: char| to_url_safe_char(c)),
    decreases s.len(),
{
    let sm = s.map_values(|c: char| to_url_safe_char(c));
    if n == 0 || s.len() <= n {
    } else {
        lemma_wrapped_lines_url(s.skip(n as int), n);
        assert(sm.skip(n as int) =~= s.skip(n as int).map_values(|c: char| to_url_safe_char(c)));
        assert(wrapped_lines(sm, n) =~= wrapped_lines(s, n).map_values(
            |c: char| to_url_safe_char(c),
        ));
    }
}

/// Replacing `+` and `/` commutes with the degenerate wrapping that puts a
/// break before every character.
proof fn lemma_break_before_each_url(s: Seq<char>)
    ensures
        break_before_each(s.map_values(|c: char| to_url_safe_char(c))) == break_before_each(
            s,
        ).map_values(|c: char| to_url_safe_char(c)),
    decreases s.len(),
{
    let sm = s.map_values(|c: char| to_url_safe_char(c));
    if s.len() == 0 {
        assert(break_before_each(sm) =~= break_before_each(s).map_values(
            |c: char| to_url_safe_char(c),
        ));
    } else {
        lemma_break_before_each_url(s.skip(1));
        assert(sm.skip(1) =~= s.skip(1).map_values(|c: char| to_url_safe_char(c)));
        assert(break_before_each(sm) =~= break_before_each(s).map_values(
            |c: char| to_url_safe_char(c),
        ));
    }
}

/// Switching the character set from `Standard` to `UrlSafe` changes only
/// occurrences of `+` to `-` and `/` to `_`; every other character, the
/// padding and the line breaks are identical.
pub proof fn lemma_char_set_switch(b: Seq<u8>, cfg: Config)
    requires
        cfg.char_set == CharacterSet::Standard,
    ensures
        ({
            let urlcfg = Config {
                char_set: CharacterSet::UrlSafe,
                pad: cfg.pad,
                line_length: cfg.line_length,
            };
            encoded(b, urlcfg) == encoded(b, cfg).map_values(|c: char| to_url_safe_char(c))
        }),
{
    let urlcfg = Config {
        char_set: CharacterSet::UrlSafe,
        pad: cfg.pad,
        line_length: cfg.line_length,
    };
    lemma_symbols_url(b);
    assert(unwrapped_output(b, urlcfg) =~= unwrapped_output(b, cfg).map_values(
        |c: char| to_url_safe_char(c),
    ));
    match cfg.line_length {
        None => {
        },
        Some(n) => {
            if n == 0 {
                lemma_break_before_each_url(unwrapped_output(b, cfg));
            } else {
                lemma_wrapped_lines_url(unwrapped_output(b, cfg), n as nat);
            }
        },
    }
}

/// Where the line breaks of `wrapped_lines` stand, for text without breaks of
/// its own: the output holds one break per started line beyond the first, and
/// a break stands exactly at every position `i` with `i + 1` a multiple of
/// `n + 1`, never at the very end.
proof fn lemma_wrapped_lines_breaks(s: Seq<char>, n: nat)
    requires
        n >= 1,
        forall|i: int| 0 <= i < s.len() ==> s[i] != '\n',
    ensures
        wrapped_lines(s, n).len() == s.len() + (if s.len() == 0 {
            0int
        } else {
            (s.len() - 1) / (n as int)
        }),
        forall|i: int|
            0 <= i < wrapped_lines(s, n).len() ==> ((#[trigger] wrapped_lines(s, n)[i]) == '\n'
                <==> ((i + 1) % (n as int + 1) == 0 && i + 1 < wrapped_lines(s, n).len())),
    decreases s.len(),
{
    let w = wrapped_lines(s, n);
    let m = n as int + 1;
    if s.len() <= n {
        if s.len() > 0 {
            vstd::arithmetic::div_mod::lemma_basic_div((s.len() - 1) as int, n as int);
        }
        assert forall|i: int| 0 <= i < w.len() implies (w[i] == '\n' <==> ((i + 1) % m == 0 && i + 1
            < w.len())) by {
            vstd::arithmetic::div_mod::lemma_small_mod((i + 1) as nat, m as nat);
        }
    } else {
        let rest = wrapped_lines(s.skip(n as int), n);
        assert forall|i: int| 0 <= i < s.skip(n as int).len() implies s.skip(n as int)[i]
            != '\n' by {
            assert(s.skip(n as int)[i] == s[i + n]);
        }
        lemma_wrapped_lines_breaks(s.skip(n as int), n);
        vstd::arithmetic::div_mod::lemma_div_plus_one((s.len() - 1 - n) as int, n as int);
        assert(w.len() == s.len() + (s.len() - 1) / (n as int));
        assert forall|i: int| 0 <= i < w.len() implies (w[i] == '\n' <==> ((i + 1) % m == 0 && i + 1
            < w.len())) by {
            if i < n {
                assert(w[i] == s[i]);
                vstd::arithmetic::div_mod::lemma_small_mod((i + 1) as nat, m as nat);
            } else if i == n {
                assert(w[i] == '\n');
                vstd::arithmetic::div_mod::lemma_mod_self_0(m);
                assert(rest.len() >= 1);
            } else {
                assert(w[i] == rest[i - m]);
                vstd::arithmetic::div_mod::lemma_mod_add_multiples_vanish(i - m + 1, m);
            }
        }
    }
}

/// Line-wrapping law: with a line length of `n >= 1`, a line break stands
/// exactly after every `n`-th character and never at the very end, so every
/// line except possibly the last holds exactly `n` characters.
pub proof fn lemma_line_wrapping(b: Seq<u8>, cfg: Config, n: usize)
    requires
        cfg.line_length == Some(n),
        n >= 1,
    ensures
        ({
            let u = unwrapped_output(b, cfg);
            let out = encoded(b, cfg);
            &&& out.len() == u.len() + (if u.len() == 0 {
                0int
            } else {
                (u.len() - 1) / (n as int)
            })
            &&& forall|i: int|
                0 <= i < out.len() ==> ((#[trigger] out[i]) == '\n' <==> ((i + 1) % (n as int + 1)
                    == 0 && i + 1 < out.len()))
        }),
{
    lemma_unwrapped_no_newline(b, cfg);
    lemma_wrapped_lines_breaks(unwrapped_output(b, cfg), n as nat);
}

} // verus!
