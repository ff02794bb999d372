use vstd::prelude::*;
use crate::text::{chars_of, decimal, push_decimal, push_str, push_char};

verus! {

/// Writes values as text: `true`, `1234`, `"str"`, `None`, `Some (1)`,
/// `[1, 2]`, `(1, 2)`, `Name (1, 2)`, `{ k: v }`, `Name { k: v }` and
/// `Name::Variant`.
pub struct Serializer {
    output: String,
}

/// The text of a signed 64-bit number.
pub open spec fn signed_decimal(v: int) -> Seq<char> {
    if v < 0 { seq!['-'] + decimal((-v) as nat) } else { decimal(v as nat) }
}

/// Whether `s` ends with `suffix`.
pub open spec fn ends_with(s: Seq<char>, suffix: Seq<char>) -> bool {
    suffix.len() <= s.len() && s.subrange(s.len() - suffix.len(), s.len() as int) == suffix
}

/// The separator written before an element: none right after `open`.
pub open spec fn separator(s: Seq<char>, open: Seq<char>) -> Seq<char> {
    if ends_with(s, open) { Seq::empty() } else { ", "@ }
}

fn ends_with_chars(s: &String, suffix: &str) -> (r: bool)
    ensures
        r == ends_with(s@, suffix@),
{
    let a = chars_of(s.as_str());
    let b = chars_of(suffix);
    if b.len() > a.len() {
        return false;
    }
    let d = a.len() - b.len();
    let mut i: usize = 0;
    while i < b.len()
        invariant
            a@ == s@,
            b@ == suffix@,
            b@.len() <= a@.len(),
            a@.len() <= usize::MAX,
            d == a@.len() - b@.len(),
            i <= b@.len(),
            forall|j: int| 0 <= j < i ==> a@[d + j] == b@[j],
        decreases b@.len() - i,
    {
        if a[d + i] != b[i] {
            proof {
                assert(a@.subrange(d as int, a@.len() as int)[i as int] != b@[i as int]);
            }
            return false;
        }
        i = i + 1;
    }
    proof {
        assert(a@.subrange(d as int, a@.len() as int) =~= b@);
    }
    true
}

impl Serializer {
    /// A serializer with empty output.
    pub fn new() -> (s: Self)
        ensures
            s.text() == Seq::<char>::empty(),
    {
        Serializer { output: String::new() }
    }

    /// The text written so far.
    pub closed spec fn text(&self) -> Seq<char> {
        self.output@
    }

    /// The text written so far.
    pub fn output(self) -> (o: String)
        ensures
            o@ == self.text(),
    {
        self.output
    }

    fn write(&mut self, s: &str)
        ensures
            final(self).text() == old(self).text() + s@,
    {
        push_str(&mut self.output, s);
    }

    /// Writes `true` or `false`.
    pub fn serialize_bool(&mut self, v: bool)
        ensures
            final(self).text() == old(self).text() + (if v { "true"@ } else { "false"@ }),
    {
        if v { self.write("true") } else { self.write("false") }
    }

    /// Writes a signed number in decimal.
    pub fn serialize_i64(&mut self, v: i64)
        ensures
            final(self).text() == old(self).text() + signed_decimal(v as int),
    {
        if v < 0 {
            push_char(&mut self.output, '-');
            let m: u64 = if v == i64::MIN { 9223372036854775808u64 } else { (-v) as u64 };
            push_decimal(&mut self.output, m);
            proof {
                assert(old(self).text() + signed_decimal(v as int) =~= old(self).text() + seq!['-'] + decimal(m as nat));
            }
        } else {
            push_decimal(&mut self.output, v as u64);
        }
    }

    /// Writes an unsigned number in decimal.
    pub fn serialize_u64(&mut self, v: u64)
        ensures
            final(self).text() == old(self).text() + decimal(v as nat),
    {
        push_decimal(&mut self.output, v);
    }

    /// Writes the text of a floating-point number, as its caller renders it.
    pub fn serialize_float_text(&mut self, text: &str)
        ensures
            final(self).text() == old(self).text() + text@,
    {
        self.write(text);
    }

    /// Writes a character as a string of one character.
    pub fn serialize_char(&mut self, v: char)
        ensures
            final(self).text() == old(self).text() + seq!['"', v, '"'],
    {
        push_char(&mut self.output, '"');
        push_char(&mut self.output, v);
        push_char(&mut self.output, '"');
        proof {
            assert(self.text() =~= old(self).text() + seq!['"', v, '"']);
        }
    }

    /// Writes a string in double quotes; escape sequences are not handled.
    pub fn serialize_str(&mut self, v: &str)
        ensures
            final(self).text() == old(self).text() + seq!['"'] + v@ + seq!['"'],
    {
        push_char(&mut self.output, '"');
        push_str(&mut self.output, v);
        push_char(&mut self.output, '"');
    }

    /// Writes `None`.
    pub fn serialize_none(&mut self)
        ensures
            final(self).text() == old(self).text() + "None"@,
    {
        self.write("None");
    }

    /// Writes `Some (`, before the value.
    pub fn serialize_some_start(&mut self)
        ensures
            final(self).text() == old(self).text() + "Some ("@,
    {
        self.write("Some (");
    }

    /// Writes `)`, after the value of a `Some`, a newtype, a tuple or a
    /// tuple struct.
    pub fn close_paren(&mut self)
        ensures
            final(self).text() == old(self).text() + ")"@,
    {
        self.write(")");
    }

    /// Writes `()`.
    pub fn serialize_unit(&mut self)
        ensures
            final(self).text() == old(self).text() + "()"@,
    {
        self.write("()");
    }

    /// Writes the name of a unit struct.
    pub fn serialize_unit_struct(&mut self, name: &str)
        ensures
            final(self).text() == old(self).text() + name@,
    {
        self.write(name);
    }

    /// Writes `Name::Variant`.
    pub fn serialize_unit_variant(&mut self, name: &str, variant: &str)
        ensures
            final(self).text() == old(self).text() + name@ + "::"@ + variant@,
    {
        self.write(name);
        self.write("::");
        self.write(variant);
    }

    /// Writes `Name (`, before the value of a newtype struct or the
    /// elements of a tuple struct.
    pub fn serialize_newtype_struct_start(&mut self, name: &str)
        ensures
            final(self).text() == old(self).text() + name@ + " ("@,
    {
        self.write(name);
        self.write(" (");
    }

    /// Writes `Name::Variant (`, before the value of a newtype variant or
    /// the elements of a tuple variant.
    pub fn serialize_newtype_variant_start(&mut self, name: &str, variant: &str)
        ensures
            final(self).text() == old(self).text() + name@ + "::"@ + variant@ + " ("@,
    {
        self.write(name);
        self.write("::");
        self.write(variant);
        self.write(" (");
    }

    /// Writes `[`, before the elements of a sequence.
    pub fn serialize_seq_start(&mut self)
        ensures
            final(self).text() == old(self).text() + "["@,
    {
        self.write("[");
    }

    /// Writes what comes before an element of a sequence: `, ` unless the
    /// sequence has just been opened.
    pub fn serialize_seq_element(&mut self)
        ensures
            final(self).text() == old(self).text() + separator(old(self).text(), "["@),
    {
        if !ends_with_chars(&self.output, "[") {
            self.write(", ");
        } else {
            proof {
                assert(old(self).text() + Seq::<char>::empty() =~= old(self).text());
            }
        }
    }

    /// Writes `]`, after the elements of a sequence.
    pub fn serialize_seq_end(&mut self)
        ensures
            final(self).text() == old(self).text() + "]"@,
    {
        self.write("]");
    }

    /// Writes what comes before an element of a tuple, a tuple struct or a
    /// tuple variant: `, ` unless the tuple has just been opened.
    pub fn serialize_tuple_element(&mut self)
        ensures
            final(self).text() == old(self).text() + separator(old(self).text(), "("@),
    {
        if !ends_with_chars(&self.output, "(") {
            self.write(", ");
        } else {
            proof {
                assert(old(self).text() + Seq::<char>::empty() =~= old(self).text());
            }
        }
    }

    /// Writes `{ `, before the entries of a map.
    pub fn serialize_map_start(&mut self)
        ensures
            final(self).text() == old(self).text() + "{ "@,
    {
        self.write("{ ");
    }

    /// Writes `Name { `, before the fields of a struct.
    pub fn serialize_struct_start(&mut self, name: &str)
        ensures
            final(self).text() == old(self).text() + name@ + " "@ + "{ "@,
    {
        self.write(name);
        self.write(" ");
        self.serialize_map_start();
    }

    /// Writes `Name::Variant { `, before the fields of a struct variant.
    pub fn serialize_struct_variant_start(&mut self, name: &str, variant: &str)
        ensures
            final(self).text() == old(self).text() + name@ + "::"@ + variant@ + " "@ + "{ "@,
    {
        self.write(name);
        self.write("::");
        self.write(variant);
        self.write(" ");
        self.serialize_map_start();
    }

    /// Writes what comes before a key of a map: `, ` unless the map has
    /// just been opened.
    pub fn serialize_map_key(&mut self)
        ensures
            final(self).text() == old(self).text() + separator(old(self).text(), "{ "@),
    {
        if !ends_with_chars(&self.output, "{ ") {
            self.write(", ");
        } else {
            proof {
                assert(old(self).text() + Seq::<char>::empty() =~= old(self).text());
            }
        }
    }

    /// Writes `: `, between a key and its value.
    pub fn serialize_map_value(&mut self)
        ensures
            final(self).text() == old(self).text() + ": "@,
    {
        self.write(": ");
    }

    /// Writes what comes before the value of a field: the separator, the
    /// key and `: `.
    pub fn serialize_field(&mut self, key: &str)
        ensures
            final(self).text() == old(self).text() + separator(old(self).text(), "{ "@) + key@ + ": "@,
    {
        self.serialize_map_key();
        self.write(key);
        self.serialize_map_value();
    }

    /// Writes ` }`, after the entries of a map or the fields of a struct.
    pub fn serialize_map_end(&mut self)
        ensures
            final(self).text() == old(self).text() + " }"@,
    {
        self.write(" }");
    }
}

/// Why text could not be read as a value.
#[derive(Clone, Copy, Debug, PartialEq, Eq, Structural)]
pub enum Error {
    Eof,
    Syntax,
    ExpectedBoolean,
    ExpectedInteger,
    ExpectedString,
    ExpectedNull,
    ExpectedArray,
    ExpectedArrayComma,
    ExpectedArrayEnd,
    ExpectedMap,
    ExpectedMapColon,
    ExpectedMapComma,
    ExpectedMapEnd,
    ExpectedEnum,
    TrailingCharacters,
}

/// Reads values from text written as `Serializer` writes them.
pub struct Deserializer<'de> {
    input: &'de str,
}

/// Whether `s` starts with `prefix`.
pub open spec fn starts_with(s: Seq<char>, prefix: Seq<char>) -> bool {
    prefix.len() <= s.len() && s.take(prefix.len() as int) == prefix
}

/// Whether `c` is a decimal digit.
pub open spec fn is_digit(c: char) -> bool {
    '0' <= c && c <= '9'
}

/// The value of a decimal digit.
pub open spec fn digit_value(c: char) -> nat {
    (c as u32 - '0' as u32) as nat
}

/// Number of decimal digits `s` starts with.
pub open spec fn digit_run(s: Seq<char>) -> nat
    decreases s.len(),
{
    if s.len() > 0 && is_digit(s[0]) { 1 + digit_run(s.drop_first()) } else { 0 }
}

/// The number the decimal digits `s` stand for.
pub open spec fn digits_value(s: Seq<char>) -> nat
    decreases s.len(),
{
    if s.len() == 0 { 0 } else { digits_value(s.drop_last()) * 10 + digit_value(s.last()) }
}

/// Index of the first double quote in `s`.
pub open spec fn first_quote(s: Seq<char>, p: int) -> Option<int>
    decreases s.len() - p,
{
    if p < 0 || p >= s.len() { None } else if s[p] == '"' { Some(p) } else { first_quote(s, p + 1) }
}

/// What kind of value the next character starts.
#[derive(Clone, Copy, Debug, PartialEq, Eq, Structural)]
pub enum ValueKind {
    Unit,
    Bool,
    Str,
    Unsigned,
    Signed,
    Sequence,
    Mapping,
}

/// The kind of value that starts with `c`, if any.
pub open spec fn kind_of(c: char) -> Option<ValueKind> {
    if c == 'n' { Some(ValueKind::Unit) }
    else if c == 't' || c == 'f' { Some(ValueKind::Bool) }
    else if c == '"' { Some(ValueKind::Str) }
    else if is_digit(c) { Some(ValueKind::Unsigned) }
    else if c == '-' { Some(ValueKind::Signed) }
    else if c == '[' { Some(ValueKind::Sequence) }
    else if c == '{' { Some(ValueKind::Mapping) }
    else { None }
}

fn starts_with_str(s: &str, prefix: &str) -> (r: bool)
    ensures
        r == starts_with(s@, prefix@),
{
    let a = chars_of(s);
    let b = chars_of(prefix);
    if b.len() > a.len() {
        return false;
    }
    let mut i: usize = 0;
    while i < b.len()
        invariant
            a@ == s@,
            b@ == prefix@,
            b@.len() <= a@.len(),
            i <= b@.len(),
            forall|j: int| 0 <= j < i ==> a@[j] == b@[j],
        decreases b@.len() - i,
    {
        if a[i] != b[i] {
            proof {
                assert(a@.take(b@.len() as int)[i as int] != b@[i as int]);
            }
            return false;
        }
        i = i + 1;
    }
    proof {
        assert(a@.take(b@.len() as int) =~= b@);
    }
    true
}

impl<'de> Deserializer<'de> {
    /// The text not read yet.
    pub closed spec fn rest(&self) -> Seq<char> {
        self.input@
    }

    /// A deserializer that reads `input`.
    pub fn from_str(input: &'de str) -> (d: Self)
        ensures
            d.rest() == input@,
    {
        Deserializer { input }
    }

    /// Drops the first `k` characters of the text not read yet.
    fn skip(&mut self, k: usize)
        requires
            k <= old(self).rest().len(),
        ensures
            final(self).rest() == old(self).rest().skip(k as int),
    {
        let n = self.input.unicode_len();
        self.input = self.input.substring_char(k, n);
        proof {
            assert(self.input@ =~= old(self).input@.skip(k as int));
        }
    }

    /// The next character, not read.
    pub fn peek_char(&mut self) -> (r: Result<char, Error>)
        ensures
            final(self).rest() == old(self).rest(),
            r == (if old(self).rest().len() == 0 { Err::<char, Error>(Error::Eof) } else { Ok(old(self).rest()[0]) }),
    {
        let cs = chars_of(self.input);
        if cs.len() == 0 { Err(Error::Eof) } else { Ok(cs[0]) }
    }

    /// Reads the next character.
    pub fn next_char(&mut self) -> (r: Result<char, Error>)
        ensures
            old(self).rest().len() == 0 ==> r == Err::<char, Error>(Error::Eof) && final(self).rest() == old(self).rest(),
            old(self).rest().len() > 0 ==> r == Ok::<char, Error>(old(self).rest()[0])
                && final(self).rest() == old(self).rest().drop_first(),
    {
        let ch = self.peek_char();
        match ch {
            Ok(c) => {
                self.skip(1);
                Ok(c)
            },
            Err(e) => Err(e),
        }
    }

    /// Reads `true` or `false`.
    pub fn parse_bool(&mut self) -> (r: Result<bool, Error>)
        ensures
            starts_with(old(self).rest(), "true"@) ==> r == Ok::<bool, Error>(true)
                && final(self).rest() == old(self).rest().skip(4),
            !starts_with(old(self).rest(), "true"@) && starts_with(old(self).rest(), "false"@)
                ==> r == Ok::<bool, Error>(false) && final(self).rest() == old(self).rest().skip(5),
            !starts_with(old(self).rest(), "true"@) && !starts_with(old(self).rest(), "false"@)
                ==> r == Err::<bool, Error>(Error::ExpectedBoolean) && final(self).rest() == old(self).rest(),
    {
        if starts_with_str(self.input, "true") {
            proof {
                reveal_strlit("true");
            }
            self.skip(4);
            Ok(true)
        } else if starts_with_str(self.input, "false") {
            proof {
                reveal_strlit("false");
            }
            self.skip(5);
            Ok(false)
        } else {
            Err(Error::ExpectedBoolean)
        }
    }

    /// Reads `()`.
    pub fn parse_unit(&mut self) -> (r: Result<(), Error>)
        ensures
            starts_with(old(self).rest(), "()"@) ==> r == Ok::<(), Error>(())
                && final(self).rest() == old(self).rest().skip(2),
            !starts_with(old(self).rest(), "()"@) ==> r == Err::<(), Error>(Error::ExpectedNull)
                && final(self).rest() == old(self).rest(),
    {
        if starts_with_str(self.input, "()") {
            proof {
                reveal_strlit("()");
            }
            self.skip(2);
            Ok(())
        } else {
            Err(Error::ExpectedNull)
        }
    }

    /// Reads `None` when the text starts with it, giving `false`; otherwise
    /// reads nothing and gives `true`, a value following.
    pub fn parse_option(&mut self) -> (some: bool)
        ensures
            some == !starts_with(old(self).rest(), "None"@),
            !some ==> final(self).rest() == old(self).rest().skip(4),
            some ==> final(self).rest() == old(self).rest(),
    {
        if starts_with_str(self.input, "None") {
            proof {
                reveal_strlit("None");
            }
            self.skip(4);
            false
        } else {
            true
        }
    }

    /// Reads a group of decimal digits as a number; a number too large for
    /// 64 bits is left out by the precondition.
    pub fn parse_unsigned(&mut self) -> (r: Result<u64, Error>)
        requires
            old(self).rest().len() > 0 && is_digit(old(self).rest()[0]) ==>
                digits_value(old(self).rest().take(1 + digit_run(old(self).rest().drop_first()) as int)) <= u64::MAX,
        ensures
            old(self).rest().len() == 0 ==> r == Err::<u64, Error>(Error::Eof) && final(self).rest() == old(self).rest(),
            old(self).rest().len() > 0 && !is_digit(old(self).rest()[0]) ==> r == Err::<u64, Error>(Error::ExpectedInteger)
                && final(self).rest() == old(self).rest().drop_first(),
            old(self).rest().len() > 0 && is_digit(old(self).rest()[0]) ==> ({
                let n = 1 + digit_run(old(self).rest().drop_first()) as int;
                &&& r == Ok::<u64, Error>(digits_value(old(self).rest().take(n)) as u64)
                &&& final(self).rest() == old(self).rest().skip(n)
            }),
    {
        let ghost s = self.rest();
        let first = match self.next_char() {
            Ok(c) => c,
            Err(e) => {
                return Err(e);
            },
        };
        if !('0' <= first && first <= '9') {
            return Err(Error::ExpectedInteger);
        }
        let mut value: u64 = (first as u32 - '0' as u32) as u64;
        let cs = chars_of(self.input);
        let ghost t = s.drop_first();
        let ghost run = digit_run(t) as int;
        let mut i: usize = 0;
        proof {
            assert(s.take(1).drop_last() =~= Seq::<char>::empty());
            assert(s.take(1).last() == first);
            assert(digits_value(Seq::<char>::empty()) == 0);
            assert(digits_value(s.take(1)) == digits_value(s.take(1).drop_last()) * 10 + digit_value(s.take(1).last()));
            lemma_digit_run(t);
        }
        while i < cs.len() && '0' <= cs[i] && cs[i] <= '9'
            invariant
                cs@ == t,
                t == s.drop_first(),
                s.len() > 0,
                run == digit_run(t),
                i <= run,
                run <= t.len(),
                forall|k: int| 0 <= k < run ==> is_digit(#[trigger] t[k]),
                run < t.len() ==> !is_digit(t[run]),
                value == digits_value(s.take(1 + i)),
                digits_value(s.take(1 + run)) <= u64::MAX,
            decreases cs@.len() - i,
        {
            let c = cs[i];
            proof {
                if i == run {
                    assert(!is_digit(t[run]));
                }
                assert(s.take(2 + i).drop_last() =~= s.take(1 + i));
                assert(s.take(2 + i).last() == c);
                lemma_digits_prefix_bound(s, 2 + i, 1 + run);
            }
            value = value * 10 + (c as u32 - '0' as u32) as u64;
            i = i + 1;
        }
        proof {
            if i < run {
                assert(is_digit(t[i as int]));
            }
        }
        self.skip(i);
        proof {
            assert(t.skip(i as int) =~= s.skip(1 + i));
        }
        Ok(value)
    }
}

impl<'de> Deserializer<'de> {
    /// Reads a string in double quotes, up to the next double quote;
    /// escape sequences are not handled.
    pub fn parse_string(&mut self) -> (r: Result<&'de str, Error>)
        ensures
            old(self).rest().len() == 0 ==> (r matches Err(Error::Eof) && final(self).rest() == old(self).rest()),
            old(self).rest().len() > 0 && old(self).rest()[0] != '"' ==> (r matches Err(Error::ExpectedString)
                && final(self).rest() == old(self).rest().drop_first()),
            old(self).rest().len() > 0 && old(self).rest()[0] == '"' ==> match first_quote(old(self).rest(), 1) {
                Some(e) => (r matches Ok(v) && v@ == old(self).rest().subrange(1, e)
                    && final(self).rest() == old(self).rest().skip(e + 1)),
                None => (r matches Err(Error::Eof) && final(self).rest() == old(self).rest().drop_first()),
            },
    {
        let ghost s = self.rest();
        match self.next_char() {
            Ok(c) => {
                if c != '"' {
                    return Err(Error::ExpectedString);
                }
            },
            Err(e) => {
                return Err(e);
            },
        }
        let cs = chars_of(self.input);
        let mut i: usize = 0;
        while i < cs.len() && cs[i] != '"'
            invariant
                cs@ == s.drop_first(),
                s.len() > 0,
                i <= cs@.len(),
                first_quote(s, 1) == first_quote(s, 1 + i),
            decreases cs@.len() - i,
        {
            i = i + 1;
        }
        if i < cs.len() {
            let v = self.input.substring_char(0, i);
            self.skip(i + 1);
            proof {
                assert(v@ =~= s.subrange(1, 1 + i));
                assert(s.drop_first().skip(i + 1) =~= s.skip(i + 2));
            }
            Ok(v)
        } else {
            Err(Error::Eof)
        }
    }

    /// Reads the next character, `Ok` when it is `c`, the error `err`
    /// otherwise.
    pub fn expect_char(&mut self, c: char, err: Error) -> (r: Result<(), Error>)
        ensures
            old(self).rest().len() == 0 ==> r == Err::<(), Error>(Error::Eof) && final(self).rest() == old(self).rest(),
            old(self).rest().len() > 0 ==> final(self).rest() == old(self).rest().drop_first()
                && r == (if old(self).rest()[0] == c { Ok::<(), Error>(()) } else { Err(err) }),
    {
        match self.next_char() {
            Ok(d) => {
                if d == c { Ok(()) } else { Err(err) }
            },
            Err(e) => Err(e),
        }
    }

    /// Before an element of a sequence or an entry of a map: `Ok(false)`
    /// when the next character is `close`, nothing read; otherwise, after
    /// the first element, reads the comma that must come first, `comma_err`
    /// when it is missing; then `Ok(true)`.
    pub fn element_start(&mut self, first: bool, close: char, comma_err: Error) -> (r: Result<bool, Error>)
        ensures
            old(self).rest().len() == 0 ==> r == Err::<bool, Error>(Error::Eof) && final(self).rest() == old(self).rest(),
            old(self).rest().len() > 0 && old(self).rest()[0] == close ==> r == Ok::<bool, Error>(false)
                && final(self).rest() == old(self).rest(),
            old(self).rest().len() > 0 && old(self).rest()[0] != close && first ==> r == Ok::<bool, Error>(true)
                && final(self).rest() == old(self).rest(),
            old(self).rest().len() > 0 && old(self).rest()[0] != close && !first ==> final(self).rest() == old(self).rest().drop_first()
                && r == (if old(self).rest()[0] == ',' { Ok::<bool, Error>(true) } else { Err(comma_err) }),
    {
        match self.peek_char() {
            Ok(c) => {
                if c == close {
                    return Ok(false);
                }
            },
            Err(e) => {
                return Err(e);
            },
        }
        if !first {
            match self.expect_char(',', comma_err) {
                Ok(()) => {},
                Err(e) => {
                    return Err(e);
                },
            }
        }
        Ok(true)
    }

    /// What kind of value comes next, nothing read; `Syntax` when no value
    /// starts with the next character.
    pub fn any_kind(&mut self) -> (r: Result<ValueKind, Error>)
        ensures
            final(self).rest() == old(self).rest(),
            old(self).rest().len() == 0 ==> r == Err::<ValueKind, Error>(Error::Eof),
            old(self).rest().len() > 0 ==> r == match kind_of(old(self).rest()[0]) {
                Some(k) => Ok::<ValueKind, Error>(k),
                None => Err(Error::Syntax),
            },
    {
        match self.peek_char() {
            Ok(c) => {
                if c == 'n' { Ok(ValueKind::Unit) }
                else if c == 't' || c == 'f' { Ok(ValueKind::Bool) }
                else if c == '"' { Ok(ValueKind::Str) }
                else if '0' <= c && c <= '9' { Ok(ValueKind::Unsigned) }
                else if c == '-' { Ok(ValueKind::Signed) }
                else if c == '[' { Ok(ValueKind::Sequence) }
                else if c == '{' { Ok(ValueKind::Mapping) }
                else { Err(Error::Syntax) }
            },
            Err(e) => Err(e),
        }
    }

    /// Before an enum: `Ok(true)` when a quoted unit variant comes next,
    /// nothing read; otherwise reads the `{` that opens the variant and
    /// gives `Ok(false)`, or `ExpectedEnum` when another character comes.
    pub fn enum_start(&mut self) -> (r: Result<bool, Error>)
        ensures
            old(self).rest().len() == 0 ==> r == Err::<bool, Error>(Error::Eof) && final(self).rest() == old(self).rest(),
            old(self).rest().len() > 0 && old(self).rest()[0] == '"' ==> r == Ok::<bool, Error>(true)
                && final(self).rest() == old(self).rest(),
            old(self).rest().len() > 0 && old(self).rest()[0] != '"' ==> final(self).rest() == old(self).rest().drop_first()
                && r == (if old(self).rest()[0] == '{' { Ok::<bool, Error>(false) } else { Err(Error::ExpectedEnum) }),
    {
        match self.peek_char() {
            Ok(c) => {
                if c == '"' {
                    return Ok(true);
                }
            },
            Err(e) => {
                return Err(e);
            },
        }
        match self.expect_char('{', Error::ExpectedEnum) {
            Ok(()) => Ok(false),
            Err(e) => Err(e),
        }
    }

    /// `Ok` when all the text has been read, `TrailingCharacters` otherwise.
    pub fn end(&self) -> (r: Result<(), Error>)
        ensures
            r == (if self.rest().len() == 0 { Ok::<(), Error>(()) } else { Err(Error::TrailingCharacters) }),
    {
        let cs = chars_of(self.input);
        if cs.len() == 0 { Ok(()) } else { Err(Error::TrailingCharacters) }
    }
}

proof fn lemma_digit_run(t: Seq<char>)
    ensures
        digit_run(t) <= t.len(),
        forall|k: int| 0 <= k < digit_run(t) ==> is_digit(#[trigger] t[k]),
        digit_run(t) < t.len() ==> !is_digit(t[digit_run(t) as int]),
    decreases t.len(),
{
    if t.len() > 0 && is_digit(t[0]) {
        lemma_digit_run(t.drop_first());
        assert forall|k: int| 0 <= k < digit_run(t) implies is_digit(#[trigger] t[k]) by {
            if k > 0 {
                assert(t[k] == t.drop_first()[k - 1]);
            }
        }
    }
}

proof fn lemma_digits_prefix_bound(s: Seq<char>, i: int, j: int)
    requires
        0 <= i <= j <= s.len(),
    ensures
        digits_value(s.take(i)) <= digits_value(s.take(j)),
    decreases j - i,
{
    if i < j {
        lemma_digits_prefix_bound(s, i, j - 1);
        assert(s.take(j).drop_last() =~= s.take(j - 1));
    }
}

/// `parse_bool` reads back what `serialize_bool` writes, and leaves what
/// follows it.
pub proof fn law_bool_read_back(b: bool, rest: Seq<char>)
    ensures
        ({
            let t = (if b { "true"@ } else { "false"@ }) + rest;
            &&& b ==> starts_with(t, "true"@) && t.skip(4) == rest
            &&& !b ==> !starts_with(t, "true"@) && starts_with(t, "false"@) && t.skip(5) == rest
        }),
{
    reveal_strlit("true");
    reveal_strlit("false");
    let t = (if b { "true"@ } else { "false"@ }) + rest;
    if b {
        assert(t.take(4) =~= "true"@);
        assert(t.skip(4) =~= rest);
    } else {
        assert(t.take(5) =~= "false"@);
        assert(t.skip(5) =~= rest);
        assert(t[0] == 'f');
        assert(t.take(4)[0] != "true"@[0]);
    }
}

/// `parse_unit` reads back what `serialize_unit` writes.
pub proof fn law_unit_read_back(rest: Seq<char>)
    ensures
        starts_with("()"@ + rest, "()"@),
        ("()"@ + rest).skip(2) == rest,
{
    reveal_strlit("()");
    assert(("()"@ + rest).take(2) =~= "()"@);
    assert(("()"@ + rest).skip(2) =~= rest);
}

/// `parse_option` reads back the `None` that `serialize_none` writes.
pub proof fn law_none_read_back(rest: Seq<char>)
    ensures
        starts_with("None"@ + rest, "None"@),
        ("None"@ + rest).skip(4) == rest,
{
    reveal_strlit("None");
    assert(("None"@ + rest).take(4) =~= "None"@);
    assert(("None"@ + rest).skip(4) =~= rest);
}

proof fn lemma_first_quote_after(t: Seq<char>, p: int, e: int)
    requires
        0 <= p <= e < t.len(),
        t[e] == '"',
        forall|k: int| p <= k < e ==> t[k] != '"',
    ensures
        first_quote(t, p) == Some(e),
    decreases e - p,
{
    if p < e {
        lemma_first_quote_after(t, p + 1, e);
    }
}

/// `parse_string` reads back a string that `serialize_str` writes, when the
/// string holds no double quote, and leaves what follows it.
pub proof fn law_str_read_back(v: Seq<char>, rest: Seq<char>)
    requires
        !v.contains('"'),
    ensures
        ({
            let t = seq!['"'] + v + seq!['"'] + rest;
            &&& t.len() > 0 && t[0] == '"'
            &&& first_quote(t, 1) == Some(v.len() as int + 1)
            &&& t.subrange(1, v.len() as int + 1) == v
            &&& t.skip(v.len() as int + 2) == rest
        }),
{
    let t = seq!['"'] + v + seq!['"'] + rest;
    assert forall|k: int| 1 <= k < v.len() as int + 1 implies t[k] != '"' by {
        assert(t[k] == v[k - 1]);
    }
    lemma_first_quote_after(t, 1, v.len() as int + 1);
    assert(t.subrange(1, v.len() as int + 1) =~= v);
    assert(t.skip(v.len() as int + 2) =~= rest);
}

proof fn lemma_digit_value_char(d: nat)
    requires
        d < 10,
    ensures
        digit_value(crate::text::digit_char(d)) == d,
        is_digit(crate::text::digit_char(d)),
{
}

proof fn lemma_decimal_digits(n: nat)
    ensures
        decimal(n).len() >= 1,
        forall|k: int| 0 <= k < decimal(n).len() ==> is_digit(#[trigger] decimal(n)[k]),
        digits_value(decimal(n)) == n,
    decreases n,
{
    if n < 10 {
        let d = decimal(n);
        assert(d == seq![crate::text::digit_char(n)]);
        assert(d.drop_last() =~= Seq::<char>::empty());
        lemma_digit_value_char(n);
        assert(digits_value(Seq::<char>::empty()) == 0);
        assert(digits_value(d) == digits_value(d.drop_last()) * 10 + digit_value(d.last()));
        assert(d.last() == crate::text::digit_char(n));
    } else {
        lemma_decimal_digits(n / 10);
        let d = decimal(n);
        assert(d.drop_last() =~= decimal(n / 10));
        lemma_digit_value_char(n % 10);
        assert(d.last() == crate::text::digit_char(n % 10));
        assert((n / 10) * 10 + n % 10 == n) by (nonlinear_arith);
        assert(digits_value(d) == digits_value(d.drop_last()) * 10 + digit_value(d.last()));
        assert forall|k: int| 0 <= k < d.len() implies is_digit(#[trigger] d[k]) by {
            if k < d.len() - 1 {
                assert(d[k] == decimal(n / 10)[k]);
            }
        }
    }
}

proof fn lemma_digit_run_prefix(ds: Seq<char>, rest: Seq<char>)
    requires
        forall|k: int| 0 <= k < ds.len() ==> is_digit(#[trigger] ds[k]),
        rest.len() == 0 || !is_digit(rest[0]),
    ensures
        digit_run(ds + rest) == ds.len(),
    decreases ds.len(),
{
    if ds.len() > 0 {
        assert((ds + rest).drop_first() =~= ds.drop_first() + rest);
        assert(is_digit(ds[0]));
        assert((ds + rest)[0] == ds[0]);
        lemma_digit_run_prefix(ds.drop_first(), rest);
    } else {
        assert(ds + rest =~= rest);
    }
}

/// `parse_unsigned` reads back a number that `serialize_u64` writes, when
/// no digit follows it, and leaves what follows.
pub proof fn law_u64_read_back(n: nat, rest: Seq<char>)
    requires
        rest.len() == 0 || !is_digit(rest[0]),
    ensures
        ({
            let t = decimal(n) + rest;
            let k = 1 + digit_run(t.drop_first()) as int;
            &&& t.len() > 0 && is_digit(t[0])
            &&& k == decimal(n).len()
            &&& digits_value(t.take(k)) == n
            &&& t.skip(k) == rest
        }),
{
    lemma_decimal_digits(n);
    let d = decimal(n);
    let t = d + rest;
    assert(t[0] == d[0]);
    assert(t.drop_first() =~= d.drop_first() + rest);
    assert forall|k: int| 0 <= k < d.drop_first().len() implies is_digit(#[trigger] d.drop_first()[k]) by {
        assert(d.drop_first()[k] == d[k + 1]);
    }
    lemma_digit_run_prefix(d.drop_first(), rest);
    assert(t.take(d.len() as int) =~= d);
    assert(t.skip(d.len() as int) =~= rest);
}

impl<'de> Deserializer<'de> {
    /// Whether the digits the text not read yet starts with stand for a
    /// number that fits in 64 bits; true when it starts with no digit.
    pub fn unsigned_fits(&self) -> (r: bool)
        ensures
            r == (self.rest().len() > 0 && is_digit(self.rest()[0]) ==>
                digits_value(self.rest().take(1 + digit_run(self.rest().drop_first()) as int)) <= u64::MAX),
    {
        let cs = chars_of(self.input);
        let ghost s = self.rest();
        if cs.len() == 0 || !('0' <= cs[0] && cs[0] <= '9') {
            return true;
        }
        let ghost t = s.drop_first();
        let ghost run = digit_run(t) as int;
        proof {
            lemma_digit_run(t);
            assert(s.take(0) =~= Seq::<char>::empty());
        }
        let mut value: u64 = 0;
        let mut i: usize = 0;
        while i < cs.len() && '0' <= cs[i] && cs[i] <= '9'
            invariant
                cs@ == s,
                s == self.rest(),
                s.len() > 0,
                is_digit(s[0]),
                t == s.drop_first(),
                run == digit_run(t),
                run <= t.len(),
                forall|k: int| 0 <= k < run ==> is_digit(#[trigger] t[k]),
                run < t.len() ==> !is_digit(t[run]),
                i <= 1 + run,
                value == digits_value(s.take(i as int)),
            decreases cs@.len() - i,
        {
            let d = (cs[i] as u32 - '0' as u32) as u64;
            proof {
                if i > 0 && i - 1 == run {
                    assert(t[run] == s[i as int]);
                }
                if i > 0 && i - 1 < run {
                    assert(t[i - 1] == s[i as int]);
                }
                assert(s.take(i + 1).drop_last() =~= s.take(i as int));
                assert(s.take(i + 1).last() == s[i as int]);
            }
            if value > (u64::MAX - d) / 10 {
                proof {
                    if i > 0 && i - 1 >= run {
                        assert(run < t.len());
                        assert(false);
                    }
                    assert(digit_value(s[i as int]) == d);
                    assert(digits_value(s.take(i + 1)) == value * 10 + d);
                    assert(value * 10 + d > u64::MAX) by (nonlinear_arith)
                        requires value > (u64::MAX - d) / 10, d <= 9;
                    lemma_digits_prefix_bound(s, i + 1, 1 + run);
                }
                return false;
            }
            value = value * 10 + d;
            i = i + 1;
        }
        proof {
            if i < 1 + run {
                assert(t[i - 1] == s[i as int]);
                assert(is_digit(t[i - 1]));
            }
        }
        true
    }
}

} // verus!
