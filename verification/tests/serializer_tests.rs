use anodium::numfmt::{i64_to_string, u32_to_string, u64_to_string};
use anodium::serializer::ShellSerializer;

#[test]
fn u64_formatting_exact() {
    assert_eq!(u64_to_string(0), "0");
    assert_eq!(u64_to_string(7), "7");
    assert_eq!(u64_to_string(1234567890), "1234567890");
    assert_eq!(u64_to_string(u64::MAX), "18446744073709551615");
    assert_eq!(u32_to_string(60000), "60000");
}

#[test]
fn i64_formatting_exact() {
    assert_eq!(i64_to_string(0), "0");
    assert_eq!(i64_to_string(-1), "-1");
    assert_eq!(i64_to_string(-42), "-42");
    assert_eq!(i64_to_string(i64::MIN), "-9223372036854775808");
    assert_eq!(i64_to_string(i64::MAX), "9223372036854775807");
}

#[test]
fn line_with_tags_and_fields() {
    let ser = ShellSerializer::start(None).unwrap();
    let mut tags = ser.tag_serializer();
    tags.emit_str("host", "box").unwrap();
    tags.emit_u32("pid", 17).unwrap();
    let mut ser = tags.finish();
    ser.tag_value_break().unwrap();
    let mut fields = ser.field_serializer();
    fields.emit_i64("x", 5).unwrap();
    fields.emit_bool("ok", true).unwrap();
    let ser = fields.finish();
    let line = ser.end(false).unwrap();
    assert_eq!(line, " host=box  pid=17  x=5i,ok=t\n");
}

#[test]
fn empty_record_gets_dummy_field() {
    let ser = ShellSerializer::start(Some(16)).unwrap();
    let line = ser.end(true).unwrap();
    assert_eq!(line, "_dummy=1i\n");
}

#[test]
fn field_comma_only_between_fields() {
    let ser = ShellSerializer::start(None).unwrap();
    let mut fields = ser.field_serializer();
    fields.emit_u8("a", 1).unwrap();
    fields.emit_u16("b", 2).unwrap();
    fields.emit_i32("c", -3).unwrap();
    let line = fields.finish().end(false).unwrap();
    assert_eq!(line, "a=1i,b=2i,c=-3i\n");
}

#[test]
fn field_bool_char_str_unit_none() {
    let ser = ShellSerializer::start(None).unwrap();
    let mut fields = ser.field_serializer();
    fields.emit_bool("flag", false).unwrap();
    fields.emit_char("c", 'q').unwrap();
    fields.emit_str("s", "hi").unwrap();
    fields.emit_unit("u").unwrap();
    fields.emit_none("n").unwrap();
    let line = fields.finish().end(false).unwrap();
    assert_eq!(line, "flag=f,c=\"q\",s=\"hi\",u=0,n=f\n");
}

#[test]
fn tag_bool_and_markers() {
    let ser = ShellSerializer::start(None).unwrap();
    let mut tags = ser.tag_serializer();
    tags.emit_bool("up", true).unwrap();
    tags.emit_unit("u").unwrap();
    tags.emit_none("n").unwrap();
    tags.emit_i64("d", -9).unwrap();
    let line = tags.finish().end(false).unwrap();
    assert_eq!(line, " up=true ,u=0,n=f d=-9 \n");
}

#[test]
fn tag_u8_value() {
    let ser = ShellSerializer::start(None).unwrap();
    let mut tags = ser.tag_serializer();
    tags.emit_u8("v", 255).unwrap();
    let line = tags.finish().end(false).unwrap();
    assert_eq!(line, " v=255 \n");
}
