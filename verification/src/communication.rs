//! The alert payload handed to the transport collaborator, and its
//! text encoding.

use vstd::prelude::*;
use vstd::string::*;

verus! {

/// Relies on std's `String::push`: appends exactly the given character
/// to the end of the string.
pub assume_specification[ String::push ](s: &mut String, c: char)
    ensures
        final(s)@ == old(s)@.push(c),
;

/// One alert record, constructed per detected condition: the triggering
/// location label, the instantaneous readings that caused the trip
/// (temperature in centi-degrees, smoke as the raw sensor count), and
/// the pre-declared room labels of the affected floor.
pub struct FireAlert {
    pub location: String,
    pub temperature: u32,
    pub smoke_level: u16,
    pub cluster: Vec<String>,
}

/// The decimal digit character for a value below ten.
pub open spec fn dec_digit(d: int) -> char {
    if d == 0 {
        '0'
    } else if d == 1 {
        '1'
    } else if d == 2 {
        '2'
    } else if d == 3 {
        '3'
    } else if d == 4 {
        '4'
    } else if d == 5 {
        '5'
    } else if d == 6 {
        '6'
    } else if d == 7 {
        '7'
    } else if d == 8 {
        '8'
    } else {
        '9'
    }
}

/// The lower-case hexadecimal digit character for a value below sixteen.
pub open spec fn hex_digit(d: int) -> char {
    if d < 10 {
        dec_digit(d)
    } else if d == 10 {
        'a'
    } else if d == 11 {
        'b'
    } else if d == 12 {
        'c'
    } else if d == 13 {
        'd'
    } else if d == 14 {
        'e'
    } else {
        'f'
    }
}

/// The decimal representation of `n`, most significant digit first,
/// without leading zeros (a single zero for zero itself).
pub open spec fn spec_dec(n: nat) -> Seq<char>
    decreases n,
{
    if n < 10 {
        seq![dec_digit(n as int)]
    } else {
        spec_dec(n / 10).push(dec_digit((n % 10) as int))
    }
}

/// A centi-unit fixed-point value as a decimal with exactly two
/// fractional digits: 7025 reads "70.25".
pub open spec fn spec_centi(n: u32) -> Seq<char> {
    spec_dec((n / 100) as nat) + seq![
        '.',
        dec_digit(((n / 10) % 10) as int),
        dec_digit((n % 10) as int),
    ]
}

/// The escape of one character inside a JSON string: quote and
/// backslash get a backslash escape, control characters a \u00XX
/// escape, everything else stands as itself.
pub open spec fn esc_char(c: char) -> Seq<char> {
    if c == '"' {
        seq!['\\', '"']
    } else if c == '\\' {
        seq!['\\', '\\']
    } else if (c as u32) < 0x20 {
        seq![
            '\\',
            'u',
            '0',
            '0',
            hex_digit((c as u32 / 16) as int),
            hex_digit((c as u32 % 16) as int),
        ]
    } else {
        seq![c]
    }
}

/// The body of a JSON string: every character escaped, in order.
pub open spec fn json_escape(s: Seq<char>) -> Seq<char>
    decreases s.len(),
{
    if s.len() == 0 {
        Seq::empty()
    } else {
        json_escape(s.drop_last()) + esc_char(s.last())
    }
}

/// A JSON string: the escaped body between double quotes.
pub open spec fn quoted(s: Seq<char>) -> Seq<char> {
    seq!['"'] + json_escape(s) + seq!['"']
}

/// A comma-separated list of JSON strings, in order.
pub open spec fn spec_room_list(rooms: Seq<String>) -> Seq<char>
    decreases rooms.len(),
{
    if rooms.len() == 0 {
        Seq::empty()
    } else if rooms.len() == 1 {
        quoted(rooms[0]@)
    } else {
        spec_room_list(rooms.drop_last()) + seq![','] + quoted(rooms.last()@)
    }
}

/// The full text encoding of an alert: a JSON object with the fields
/// location, temperature (two fractional digits), smoke_level and
/// cluster (an array of strings).
pub open spec fn spec_alert_json(a: FireAlert) -> Seq<char> {
    "{\"location\":"@ + quoted(a.location@) + ",\"temperature\":"@ + spec_centi(a.temperature)
        + ",\"smoke_level\":"@ + spec_dec(a.smoke_level as nat) + ",\"cluster\":["@
        + spec_room_list(a.cluster@) + "]}"@
}

/// The decimal digit character of a value below ten.
fn digit_char(d: u8) -> (c: char)
    requires
        d < 10,
    ensures
        c == dec_digit(d as int),
{
    match d {
        0 => '0',
        1 => '1',
        2 => '2',
        3 => '3',
        4 => '4',
        5 => '5',
        6 => '6',
        7 => '7',
        8 => '8',
        _ => '9',
    }
}

/// The lower-case hexadecimal digit character of a value below sixteen.
fn hex_char(d: u8) -> (c: char)
    requires
        d < 16,
    ensures
        c == hex_digit(d as int),
{
    if d < 10 {
        digit_char(d)
    } else {
        match d {
            10 => 'a',
            11 => 'b',
            12 => 'c',
            13 => 'd',
            14 => 'e',
            _ => 'f',
        }
    }
}

/// Appends the decimal representation of `n`.
fn push_dec(s: &mut String, n: u64)
    ensures
        final(s)@ == old(s)@ + spec_dec(n as nat),
    decreases n,
{
    if n < 10 {
        s.push(digit_char(n as u8));
        proof {
            assert(s@ =~= old(s)@ + spec_dec(n as nat));
        }
    } else {
        push_dec(s, n / 10);
        s.push(digit_char((n % 10) as u8));
        proof {
            assert(s@ =~= old(s)@ + spec_dec(n as nat));
        }
    }
}

/// Appends a centi-unit value as a decimal with two fractional digits.
fn push_centi(s: &mut String, n: u32)
    ensures
        final(s)@ == old(s)@ + spec_centi(n),
{
    push_dec(s, (n / 100) as u64);
    s.push('.');
    s.push(digit_char(((n / 10) % 10) as u8));
    s.push(digit_char((n % 10) as u8));
    proof {
        assert(s@ =~= old(s)@ + spec_centi(n));
    }
}

/// Appends the escaped body of a JSON string.
fn push_escaped(s: &mut String, text: &str)
    ensures
        final(s)@ == old(s)@ + json_escape(text@),
{
    let ghost start = s@;
    let len = text.unicode_len();
    let mut i: usize = 0;
    while i < len
        invariant
            i <= len,
            len == text@.len(),
            s@ == start + json_escape(text@.take(i as int)),
        decreases len - i,
    {
        let ghost before = s@;
        let c = text.get_char(i);
        if c == '"' {
            s.push('\\');
            s.push('"');
        } else if c == '\\' {
            s.push('\\');
            s.push('\\');
        } else {
            let v = c as u32;
            if v < 0x20 {
                s.push('\\');
                s.push('u');
                s.push('0');
                s.push('0');
                s.push(hex_char((v / 16) as u8));
                s.push(hex_char((v % 16) as u8));
            } else {
                s.push(c);
            }
        }
        proof {
            assert(text@.take(i as int + 1).drop_last() =~= text@.take(i as int));
            assert(text@.take(i as int + 1).last() == text@[i as int]);
            assert(s@ =~= before + esc_char(text@[i as int]));
            assert(s@ =~= start + json_escape(text@.take(i as int + 1)));
        }
        i = i + 1;
    }
    proof {
        assert(text@.take(len as int) =~= text@);
    }
}

impl FireAlert {
    /// Encodes the alert as the JSON object text that the transport
    /// collaborator publishes: fields location, temperature,
    /// smoke_level and cluster, in that order, with full string
    /// escaping. Encoding never fails.
    pub fn to_json(&self) -> (r: String)
        ensures
            r@ == spec_alert_json(*self),
    {
        let mut out = String::new();
        out.append("{\"location\":");
        out.push('"');
        push_escaped(&mut out, self.location.as_str());
        out.push('"');
        proof {
            assert(out@ =~= "{\"location\":"@ + quoted(self.location@));
        }
        out.append(",\"temperature\":");
        push_centi(&mut out, self.temperature);
        out.append(",\"smoke_level\":");
        push_dec(&mut out, self.smoke_level as u64);
        out.append(",\"cluster\":[");
        let ghost head = out@;
        let mut i: usize = 0;
        while i < self.cluster.len()
            invariant
                i <= self.cluster@.len(),
                out@ == head + spec_room_list(self.cluster@.take(i as int)),
            decreases self.cluster@.len() - i,
        {
            let ghost before = out@;
            if i > 0 {
                out.push(',');
            }
            out.push('"');
            push_escaped(&mut out, self.cluster[i].as_str());
            out.push('"');
            proof {
                assert(self.cluster@.take(i as int + 1).drop_last() =~= self.cluster@.take(
                    i as int,
                ));
                assert(self.cluster@.take(i as int + 1).last() == self.cluster@[i as int]);
                if i == 0 {
                    assert(out@ =~= before + quoted(self.cluster@[0]@));
                    assert(out@ =~= head + spec_room_list(self.cluster@.take(i as int + 1)));
                } else {
                    assert(out@ =~= before + seq![','] + quoted(self.cluster@[i as int]@));
                    assert(out@ =~= head + spec_room_list(self.cluster@.take(i as int + 1)));
                }
            }
            i = i + 1;
        }
        proof {
            assert(self.cluster@.take(self.cluster@.len() as int) =~= self.cluster@);
        }
        out.append("]}");
        proof {
            assert(out@ =~= spec_alert_json(*self));
        }
        out
    }
}

} // verus!
