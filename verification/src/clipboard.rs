//! Putting text on the clipboard.
//!
//! Two ways, because the program is run over ssh about as often as it is run locally. A helper
//! program writes to the clipboard of the machine it is *running* on. The OSC 52 escape sequence
//! hands the text to the terminal that is *showing* it instead, which over ssh is the only clipboard
//! the person reading the screen can paste from.

use vstd::prelude::*;
use vstd::utf8::encode_utf8;
use crate::file_manager::Platform;

verus! {

/// A clipboard helper, and the arguments that make it write the system clipboard rather than a
/// primary selection.
#[derive(Copy, Clone, Debug)]
pub struct Helper {
    pub program: &'static str,
    pub args: Option<(&'static str, &'static str)>,
}

/// Helpers worth trying, best first. A helper for a display server that is not running would take
/// the copy and quietly drop it, so each is offered only when the server it talks to is there to
/// answer.
pub open spec fn helpers_worth_trying(platform: Platform, wayland: bool, x11: bool) -> Seq<Helper> {
    match platform {
        Platform::MacOs => seq![Helper { program: "pbcopy", args: None }],
        Platform::Windows => seq![Helper { program: "clip", args: None }],
        Platform::Other => (if wayland {
            seq![Helper { program: "wl-copy", args: None }]
        } else {
            Seq::empty()
        }) + (if x11 {
            seq![
                Helper { program: "xclip", args: Some(("-selection", "clipboard")) },
                Helper { program: "xsel", args: Some(("--clipboard", "--input")) },
            ]
        } else {
            Seq::empty()
        }),
    }
}

pub fn helpers_for(platform: Platform, wayland: bool, x11: bool) -> (out: Vec<Helper>)
    ensures
        out@ == helpers_worth_trying(platform, wayland, x11),
{
    let mut out: Vec<Helper> = Vec::new();
    match platform {
        Platform::MacOs => out.push(Helper { program: "pbcopy", args: None }),
        Platform::Windows => out.push(Helper { program: "clip", args: None }),
        Platform::Other => {
            if wayland {
                out.push(Helper { program: "wl-copy", args: None });
            }
            if x11 {
                out.push(Helper { program: "xclip", args: Some(("-selection", "clipboard")) });
                out.push(Helper { program: "xsel", args: Some(("--clipboard", "--input")) });
            }
        },
    }
    assert(out@ =~= helpers_worth_trying(platform, wayland, x11));
    out
}

/// The helpers to run before falling back on the terminal. Over ssh there are none: a helper on
/// this side of the connection would write to a clipboard nobody is sitting in front of.
pub fn helpers(over_ssh: bool, platform: Platform, wayland: bool, x11: bool) -> (out: Vec<Helper>)
    ensures
        out@ == if over_ssh {
            Seq::empty()
        } else {
            helpers_worth_trying(platform, wayland, x11)
        },
{
    if over_ssh {
        Vec::new()
    } else {
        helpers_for(platform, wayland, x11)
    }
}

/// The character for six bits.
pub open spec fn base64_digit(value: int) -> char {
    if value < 26 {
        (65 + value) as char
    } else if value < 52 {
        (71 + value) as char
    } else if value < 62 {
        (value - 4) as char
    } else if value == 62 {
        '+'
    } else {
        '/'
    }
}

/// The six bits for a character.
pub open spec fn base64_value(digit: char) -> int {
    if 'A' <= digit <= 'Z' {
        digit as int - 65
    } else if 'a' <= digit <= 'z' {
        digit as int - 71
    } else if '0' <= digit <= '9' {
        digit as int + 4
    } else if digit == '+' {
        62
    } else {
        63
    }
}

/// Up to three bytes as one number of 24 bits.
pub open spec fn group_bits(bytes: Seq<u8>) -> int {
    (if bytes.len() > 0 {
        bytes[0] as int * 65536
    } else {
        0
    }) + (if bytes.len() > 1 {
        bytes[1] as int * 256
    } else {
        0
    }) + (if bytes.len() > 2 {
        bytes[2] as int
    } else {
        0
    })
}

/// Standard base64: four characters for every three bytes, one for each six bits, with a `=` for
/// every byte the last group is short of three.
pub open spec fn base64_text(bytes: Seq<u8>) -> Seq<char>
    decreases bytes.len(),
{
    if bytes.len() == 0 {
        Seq::empty()
    } else {
        let bits = group_bits(bytes);
        seq![
            base64_digit(bits / 262144),
            base64_digit((bits / 4096) % 64),
            if bytes.len() > 1 {
                base64_digit((bits / 64) % 64)
            } else {
                '='
            },
            if bytes.len() > 2 {
                base64_digit(bits % 64)
            } else {
                '='
            },
        ] + base64_text(
            if bytes.len() > 3 {
                bytes.skip(3)
            } else {
                Seq::empty()
            },
        )
    }
}

/// What base64 text stands for.
pub open spec fn base64_meaning(text: Seq<char>) -> Seq<u8>
    decreases text.len(),
{
    if text.len() < 4 {
        Seq::empty()
    } else {
        let bits = base64_value(text[0]) * 262144 + base64_value(text[1]) * 4096 + (if text[2]
            == '=' {
            0
        } else {
            base64_value(text[2]) * 64
        }) + (if text[3] == '=' {
            0
        } else {
            base64_value(text[3])
        });
        let first = seq![(bits / 65536) as u8];
        let second = if text[2] == '=' {
            first
        } else {
            first.push(((bits / 256) % 256) as u8)
        };
        let third = if text[3] == '=' {
            second
        } else {
            second.push((bits % 256) as u8)
        };
        third + base64_meaning(text.skip(4))
    }
}

fn digit(value: u32) -> (out: char)
    requires
        value < 64,
    ensures
        out == base64_digit(value as int),
{
    let value: u8 = value as u8;
    if value < 26 {
        (65 + value) as char
    } else if value < 52 {
        (71 + value) as char
    } else if value < 62 {
        (value - 4) as char
    } else if value == 62 {
        '+'
    } else {
        '/'
    }
}

/// Standard base64, which is the only encoding OSC 52 takes.
pub fn base64(bytes: &[u8]) -> (out: String)
    ensures
        out@ == base64_text(bytes@),
{
    let mut out = String::new();
    let mut at: usize = 0;
    assert(bytes@.skip(0) =~= bytes@);
    assert(out@ + base64_text(bytes@.skip(0)) =~= base64_text(bytes@));
    while at < bytes.len()
        invariant
            at <= bytes.len(),
            out@ + base64_text(bytes@.skip(at as int)) == base64_text(bytes@),
        decreases bytes.len() - at,
    {
        let left: usize = bytes.len() - at;
        let ghost rest = bytes@.skip(at as int);
        let ghost before = out@;
        let first: u32 = bytes[at] as u32;
        let second: u32 = if left > 1 {
            bytes[at + 1] as u32
        } else {
            0
        };
        let third: u32 = if left > 2 {
            bytes[at + 2] as u32
        } else {
            0
        };
        let bits: u32 = first * 65536 + second * 256 + third;
        assert(bits == group_bits(rest));
        out.push(digit(bits / 262144));
        out.push(digit((bits / 4096) % 64));
        out.push(if left > 1 {
            digit((bits / 64) % 64)
        } else {
            '='
        });
        out.push(if left > 2 {
            digit(bits % 64)
        } else {
            '='
        });
        let step: usize = if left > 3 {
            3
        } else {
            left
        };
        proof {
            let tail = if rest.len() > 3 {
                rest.skip(3)
            } else {
                Seq::empty()
            };
            assert(tail =~= bytes@.skip(at + step));
            assert(out@ + base64_text(tail) =~= before + base64_text(rest));
        }
        at += step;
    }
    assert(bytes@.skip(at as int) =~= Seq::empty());
    assert(out@ =~= out@ + base64_text(bytes@.skip(at as int)));
    out
}

/// The sequence that asks the terminal itself to take a text, by way of OSC 52.
///
/// It moves no cursor and prints nothing, so it cannot disturb the frame on screen, and a terminal
/// that does not understand it ignores it.
pub fn osc52(text: &str) -> (sequence: String)
    ensures
        sequence@ == "\x1b]52;c;"@ + base64_text(encode_utf8(text@)) + "\x07"@,
{
    let mut sequence = String::from_str("\x1b]52;c;");
    sequence.append(base64(text.as_bytes()).as_str());
    sequence.append("\x07");
    sequence
}

/// What is said where neither a helper nor the terminal would take the text.
pub fn unreachable_text(error: &str) -> (text: String)
    ensures
        text@ == "no clipboard reachable from here — "@ + error@,
{
    let mut text = String::from_str("no clipboard reachable from here — ");
    text.append(error);
    text
}

proof fn digits_are_read_back(value: int)
    requires
        0 <= value < 64,
    ensures
        base64_value(base64_digit(value)) == value,
        base64_digit(value) != '=',
        base64_digit(value) != '\n',
{
}

proof fn bits_split(bits: int)
    requires
        0 <= bits < 16777216,
    ensures
        bits == (bits / 262144) * 262144 + ((bits / 4096) % 64) * 4096 + ((bits / 64) % 64) * 64
            + bits % 64,
        0 <= bits / 262144 < 64,
{
}

proof fn bytes_split(a: u8, b: u8, c: u8)
    ensures
        ({
            let bits = a as int * 65536 + b as int * 256 + c as int;
            &&& bits / 65536 == a
            &&& (bits / 256) % 256 == b
            &&& bits % 256 == c
            &&& 0 <= bits < 16777216
        }),
{
}

/// What the first four characters of a text stand for.
spec fn group_meaning(text: Seq<char>) -> Seq<u8> {
    let bits = base64_value(text[0]) * 262144 + base64_value(text[1]) * 4096 + (if text[2] == '=' {
        0
    } else {
        base64_value(text[2]) * 64
    }) + (if text[3] == '=' {
        0
    } else {
        base64_value(text[3])
    });
    let first = seq![(bits / 65536) as u8];
    let second = if text[2] == '=' {
        first
    } else {
        first.push(((bits / 256) % 256) as u8)
    };
    if text[3] == '=' {
        second
    } else {
        second.push((bits % 256) as u8)
    }
}

proof fn group_round_trip(bytes: Seq<u8>, text: Seq<char>)
    requires
        bytes.len() > 0,
        text == base64_text(bytes),
    ensures
        group_meaning(text) == bytes.take(
            if bytes.len() < 3 {
                bytes.len() as int
            } else {
                3
            },
        ),
{
    let bits = group_bits(bytes);
    let one = bytes[0];
    let two = if bytes.len() > 1 {
        bytes[1]
    } else {
        0
    };
    let three = if bytes.len() > 2 {
        bytes[2]
    } else {
        0
    };
    bytes_split(one, two, three);
    bits_split(bits);
    digits_are_read_back(bits / 262144);
    digits_are_read_back((bits / 4096) % 64);
    digits_are_read_back((bits / 64) % 64);
    digits_are_read_back(bits % 64);
    if bytes.len() == 1 {
        assert((bits / 64) % 64 == 0 && bits % 64 == 0);
        assert(group_meaning(text) =~= bytes.take(1));
    } else if bytes.len() == 2 {
        assert(bits % 64 == 0);
        assert(group_meaning(text) =~= bytes.take(2));
    } else {
        assert(group_meaning(text) =~= bytes.take(3));
    }
}

/// Nothing is lost on the way to the clipboard: what base64 makes of some bytes stands for those
/// bytes, is four characters for every three bytes begun, and holds no line break.
pub proof fn base64_round_trip(bytes: Seq<u8>)
    ensures
        base64_meaning(base64_text(bytes)) == bytes,
        base64_text(bytes).len() == 4 * ((bytes.len() + 2) / 3),
        !base64_text(bytes).contains('\n'),
    decreases bytes.len(),
{
    if bytes.len() == 0 {
        assert(base64_meaning(Seq::<char>::empty()) =~= bytes);
    } else {
        let tail = if bytes.len() > 3 {
            bytes.skip(3)
        } else {
            Seq::empty()
        };
        let text = base64_text(bytes);
        group_round_trip(bytes, text);
        base64_round_trip(tail);
        assert(text.skip(4) =~= base64_text(tail));
        assert(base64_meaning(text) == group_meaning(text) + base64_meaning(text.skip(4)));
        assert(group_meaning(text) + tail =~= bytes);
        let bits = group_bits(bytes);
        bits_split(bits);
        assert forall|i: int| 0 <= i < text.len() implies text[i] != '\n' by {
            digits_are_read_back(bits / 262144);
            digits_are_read_back((bits / 4096) % 64);
            digits_are_read_back((bits / 64) % 64);
            digits_are_read_back(bits % 64);
            if i >= 4 {
                assert(text[i] == base64_text(tail)[i - 4]);
                assert(base64_text(tail).contains(base64_text(tail)[i - 4]));
            }
        }
    }
}

} // verus!
