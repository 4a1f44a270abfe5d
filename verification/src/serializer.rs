//! The shell logger's record serializer: log records rendered in the
//! influx line protocol (tags, a separating space, comma-separated
//! fields, a closing newline), with an exact character-level contract for
//! every emitter.

use vstd::prelude::*;
use vstd::string::StringExecFns;
use crate::numfmt::{dec_str, int_str, i64_to_string, u64_to_string};

verus! {

/// A serializer failure.  The writers below build plain strings and never
/// fail; the type keeps the `Result` shape of the serializer interface.
#[derive(Clone, Copy, Debug, PartialEq, Eq, Structural)]
pub struct SerError;

/// Appends one character.
///
/// Relies on `String::push`, which the standard library documents as
/// appending the given char to the end of the string.
#[verifier::external_body]
fn push_char(s: &mut String, c: char)
    ensures
        final(s)@ == old(s)@ + seq![c],
{
    s.push(c);
}

/// Builds one serialized log line.
pub struct ShellSerializer {
    data: String,
}

impl View for ShellSerializer {
    type V = Seq<char>;

    closed spec fn view(&self) -> Seq<char> {
        self.data@
    }
}

/// View of a field serializer: the line so far and whether the next field
/// still goes without a leading comma.
pub struct FieldSerView {
    pub data: Seq<char>,
    pub skip_comma: bool,
}

/// Writes the tag section: every value as ` key=value `.
pub struct TelegrafSocketTagSerializer {
    data: String,
}

impl View for TelegrafSocketTagSerializer {
    type V = Seq<char>;

    closed spec fn view(&self) -> Seq<char> {
        self.data@
    }
}

/// Writes the field section: comma-separated `key=value` pairs.
pub struct TelegrafSocketFieldSerializer {
    data: String,
    skip_comma: bool,
}

impl View for TelegrafSocketFieldSerializer {
    type V = FieldSerView;

    closed spec fn view(&self) -> FieldSerView {
        FieldSerView { data: self.data@, skip_comma: self.skip_comma }
    }
}

/// The separator the next field starts with.
pub open spec fn comma_prefix(v: FieldSerView) -> Seq<char> {
    if v.skip_comma {
        Seq::empty()
    } else {
        ","@
    }
}

impl ShellSerializer {
    /// Starts an empty line.  `len` is a capacity hint only.
    pub fn start(len: Option<usize>) -> (r: Result<ShellSerializer, SerError>)
        ensures
            r is Ok,
            r->Ok_0@ == Seq::<char>::empty(),
    {
        let _ = len;
        Ok(ShellSerializer { data: String::new() })
    }

    /// Hands the line over to the tag section writer.
    pub fn tag_serializer(self) -> (r: TelegrafSocketTagSerializer)
        ensures
            r@ == self@,
    {
        TelegrafSocketTagSerializer { data: self.data }
    }

    /// Hands the line over to the field section writer; the first field
    /// goes without a leading comma.
    pub fn field_serializer(self) -> (r: TelegrafSocketFieldSerializer)
        ensures
            r@.data == self@,
            r@.skip_comma,
    {
        TelegrafSocketFieldSerializer { data: self.data, skip_comma: true }
    }

    /// The space separating the tag section from the field section.
    pub fn tag_value_break(&mut self) -> (r: Result<(), SerError>)
        ensures
            r is Ok,
            final(self)@ == old(self)@ + " "@,
    {
        self.data.append(" ");
        Ok(())
    }

    /// Closes the line with a newline; a record without fields gets a
    /// dummy field first, because the line protocol requires one.
    pub fn end(self, insert_dummy_field: bool) -> (r: Result<String, SerError>)
        ensures
            r is Ok,
            r->Ok_0@ == self@ + (if insert_dummy_field {
                "_dummy=1i"@
            } else {
                Seq::<char>::empty()
            }) + "\n"@,
    {
        let mut data = self.data;
        if insert_dummy_field {
            data.append("_dummy=1i");
        }
        data.append("\n");
        Ok(data)
    }
}

impl TelegrafSocketTagSerializer {
    /// Hands the line back once the tag section is written.
    pub fn finish(self) -> (r: ShellSerializer)
        ensures
            r@ == self@,
    {
        ShellSerializer { data: self.data }
    }

    /// One tag written as ` key=value `.
    fn write_tag_int(&mut self, key: &str, val: i64) -> (r: Result<(), SerError>)
        ensures
            r is Ok,
            final(self)@ == old(self)@ + " "@ + key@ + "="@ + int_str(val as int) + " "@,
    {
        self.data.append(" ");
        self.data.append(key);
        self.data.append("=");
        let digits = i64_to_string(val);
        self.data.append(digits.as_str());
        self.data.append(" ");
        Ok(())
    }

    /// Serializes an unsigned 8-bit tag value.
    pub fn emit_u8(&mut self, key: &str, val: u8) -> (r: Result<(), SerError>)
        ensures
            r is Ok,
            final(self)@ == old(self)@ + " "@ + key@ + "="@ + dec_str(val as nat) + " "@,
    {
        self.write_tag_int(key, val as i64)
    }

    /// Serializes an unsigned 32-bit tag value.
    pub fn emit_u32(&mut self, key: &str, val: u32) -> (r: Result<(), SerError>)
        ensures
            r is Ok,
            final(self)@ == old(self)@ + " "@ + key@ + "="@ + dec_str(val as nat) + " "@,
    {
        self.write_tag_int(key, val as i64)
    }

    /// Serializes a signed 64-bit tag value.
    pub fn emit_i64(&mut self, key: &str, val: i64) -> (r: Result<(), SerError>)
        ensures
            r is Ok,
            final(self)@ == old(self)@ + " "@ + key@ + "="@ + int_str(val as int) + " "@,
    {
        self.write_tag_int(key, val)
    }

    /// Serializes a boolean tag value as ` key=true ` or ` key=false `.
    pub fn emit_bool(&mut self, key: &str, val: bool) -> (r: Result<(), SerError>)
        ensures
            r is Ok,
            final(self)@ == old(self)@ + " "@ + key@ + "="@ + (if val {
                "true"@
            } else {
                "false"@
            }) + " "@,
    {
        self.data.append(" ");
        self.data.append(key);
        self.data.append("=");
        if val {
            self.data.append("true");
        } else {
            self.data.append("false");
        }
        self.data.append(" ");
        Ok(())
    }

    /// Serializes a string tag value as ` key=value `.
    pub fn emit_str(&mut self, key: &str, val: &str) -> (r: Result<(), SerError>)
        ensures
            r is Ok,
            final(self)@ == old(self)@ + " "@ + key@ + "="@ + val@ + " "@,
    {
        self.data.append(" ");
        self.data.append(key);
        self.data.append("=");
        self.data.append(val);
        self.data.append(" ");
        Ok(())
    }

    /// Serializes a unit tag value as `,key=0`.
    pub fn emit_unit(&mut self, key: &str) -> (r: Result<(), SerError>)
        ensures
            r is Ok,
            final(self)@ == old(self)@ + ","@ + key@ + "=0"@,
    {
        self.data.append(",");
        self.data.append(key);
        self.data.append("=0");
        Ok(())
    }

    /// Serializes an absent tag value as `,key=f`.
    pub fn emit_none(&mut self, key: &str) -> (r: Result<(), SerError>)
        ensures
            r is Ok,
            final(self)@ == old(self)@ + ","@ + key@ + "=f"@,
    {
        self.data.append(",");
        self.data.append(key);
        self.data.append("=f");
        Ok(())
    }
}

impl TelegrafSocketFieldSerializer {
    /// Hands the line back once the field section is written.
    pub fn finish(self) -> (r: ShellSerializer)
        ensures
            r@ == self@.data,
    {
        ShellSerializer { data: self.data }
    }

    /// The comma between fields; the first field skips it.
    fn maybe_write_comma(&mut self) -> (r: Result<(), SerError>)
        ensures
            r is Ok,
            final(self)@.data == old(self)@.data + comma_prefix(old(self)@),
            !final(self)@.skip_comma,
    {
        if self.skip_comma {
            self.skip_comma = false;
        } else {
            self.data.append(",");
        }
        Ok(())
    }

    /// One integer field written as `key=valuei`.
    fn write_int(&mut self, key: &str, integer: i64) -> (r: Result<(), SerError>)
        ensures
            r is Ok,
            final(self)@.data == old(self)@.data + comma_prefix(old(self)@) + key@ + "="@
                + int_str(integer as int) + "i"@,
            !final(self)@.skip_comma,
    {
        let _ = self.maybe_write_comma();
        self.data.append(key);
        self.data.append("=");
        let digits = i64_to_string(integer);
        self.data.append(digits.as_str());
        self.data.append("i");
        Ok(())
    }

    /// Serializes an unsigned 8-bit field.
    pub fn emit_u8(&mut self, key: &str, val: u8) -> (r: Result<(), SerError>)
        ensures
            r is Ok,
            final(self)@.data == old(self)@.data + comma_prefix(old(self)@) + key@ + "="@
                + dec_str(val as nat) + "i"@,
            !final(self)@.skip_comma,
    {
        self.write_int(key, val as i64)
    }

    /// Serializes a signed 8-bit field.
    pub fn emit_i8(&mut self, key: &str, val: i8) -> (r: Result<(), SerError>)
        ensures
            r is Ok,
            final(self)@.data == old(self)@.data + comma_prefix(old(self)@) + key@ + "="@
                + int_str(val as int) + "i"@,
            !final(self)@.skip_comma,
    {
        self.write_int(key, val as i64)
    }

    /// Serializes an unsigned 16-bit field.
    pub fn emit_u16(&mut self, key: &str, val: u16) -> (r: Result<(), SerError>)
        ensures
            r is Ok,
            final(self)@.data == old(self)@.data + comma_prefix(old(self)@) + key@ + "="@
                + dec_str(val as nat) + "i"@,
            !final(self)@.skip_comma,
    {
        self.write_int(key, val as i64)
    }

    /// Serializes a signed 16-bit field.
    pub fn emit_i16(&mut self, key: &str, val: i16) -> (r: Result<(), SerError>)
        ensures
            r is Ok,
            final(self)@.data == old(self)@.data + comma_prefix(old(self)@) + key@ + "="@
                + int_str(val as int) + "i"@,
            !final(self)@.skip_comma,
    {
        self.write_int(key, val as i64)
    }

    /// Serializes an unsigned 32-bit field.
    pub fn emit_u32(&mut self, key: &str, val: u32) -> (r: Result<(), SerError>)
        ensures
            r is Ok,
            final(self)@.data == old(self)@.data + comma_prefix(old(self)@) + key@ + "="@
                + dec_str(val as nat) + "i"@,
            !final(self)@.skip_comma,
    {
        self.write_int(key, val as i64)
    }

    /// Serializes a signed 32-bit field.
    pub fn emit_i32(&mut self, key: &str, val: i32) -> (r: Result<(), SerError>)
        ensures
            r is Ok,
            final(self)@.data == old(self)@.data + comma_prefix(old(self)@) + key@ + "="@
                + int_str(val as int) + "i"@,
            !final(self)@.skip_comma,
    {
        self.write_int(key, val as i64)
    }

    /// Serializes a signed 64-bit field.
    pub fn emit_i64(&mut self, key: &str, val: i64) -> (r: Result<(), SerError>)
        ensures
            r is Ok,
            final(self)@.data == old(self)@.data + comma_prefix(old(self)@) + key@ + "="@
                + int_str(val as int) + "i"@,
            !final(self)@.skip_comma,
    {
        self.write_int(key, val)
    }

    /// Serializes a boolean field as `key=t` or `key=f`.
    pub fn emit_bool(&mut self, key: &str, val: bool) -> (r: Result<(), SerError>)
        ensures
            r is Ok,
            final(self)@.data == old(self)@.data + comma_prefix(old(self)@) + key@ + "="@ + (
            if val {
                "t"@
            } else {
                "f"@
            }),
            !final(self)@.skip_comma,
    {
        let _ = self.maybe_write_comma();
        self.data.append(key);
        self.data.append("=");
        if val {
            self.data.append("t");
        } else {
            self.data.append("f");
        }
        Ok(())
    }

    /// Serializes a character field as `key="c"`.
    pub fn emit_char(&mut self, key: &str, val: char) -> (r: Result<(), SerError>)
        ensures
            r is Ok,
            final(self)@.data == old(self)@.data + comma_prefix(old(self)@) + key@ + "=\""@
                + seq![val] + "\""@,
            !final(self)@.skip_comma,
    {
        let _ = self.maybe_write_comma();
        self.data.append(key);
        self.data.append("=\"");
        push_char(&mut self.data, val);
        self.data.append("\"");
        Ok(())
    }

    /// Serializes a string field as `key="value"`; the value is embedded
    /// verbatim.
    pub fn emit_str(&mut self, key: &str, val: &str) -> (r: Result<(), SerError>)
        ensures
            r is Ok,
            final(self)@.data == old(self)@.data + comma_prefix(old(self)@) + key@ + "=\""@ + val@
                + "\""@,
            !final(self)@.skip_comma,
    {
        let _ = self.maybe_write_comma();
        self.data.append(key);
        self.data.append("=\"");
        self.data.append(val);
        self.data.append("\"");
        Ok(())
    }

    /// Serializes a unit field as `key=0`.
    pub fn emit_unit(&mut self, key: &str) -> (r: Result<(), SerError>)
        ensures
            r is Ok,
            final(self)@.data == old(self)@.data + comma_prefix(old(self)@) + key@ + "=0"@,
            !final(self)@.skip_comma,
    {
        let _ = self.maybe_write_comma();
        self.data.append(key);
        self.data.append("=0");
        Ok(())
    }

    /// Serializes an absent field as `key=f`.
    pub fn emit_none(&mut self, key: &str) -> (r: Result<(), SerError>)
        ensures
            r is Ok,
            final(self)@.data == old(self)@.data + comma_prefix(old(self)@) + key@ + "=f"@,
            !final(self)@.skip_comma,
    {
        let _ = self.maybe_write_comma();
        self.data.append(key);
        self.data.append("=f");
        Ok(())
    }
}

} // verus!
