//! The type classifier: assigns a declared type name to exactly one of
//! four kinds. Classification happens once, when a record type is defined;
//! the codec itself works only on the structured descriptors of
//! `crate::types`.
//!
//! Recognized shapes, checked in precedence order:
//! 1. `u<w>`, `i<w>` or `void<w>` with a width of 2..=64 — primitive scalar;
//! 2. `Dynamic<...>` — dynamic array;
//! 3. `[...]` — static array;
//! 4. anything else — a nested record type.

use vstd::prelude::*;

verus! {

/// The four kinds a declared field type can fall into.
#[derive(Clone, Copy, PartialEq, Eq, Structural, Debug)]
pub enum UavcanType {
    PrimitiveType,
    DynamicArray,
    StaticArray,
    Struct,
}

/// A decimal digit.
pub open spec fn is_digit(c: char) -> bool {
    48 <= c as int <= 57
}

/// Numeric value of a decimal digit.
pub open spec fn digit_val(c: char) -> int {
    c as int - 48
}

/// The character sequence spells a scalar width: a plain decimal number in
/// 2..=64, with no leading zero.
pub open spec fn width_ok(s: Seq<char>) -> bool {
    if s.len() == 1 {
        is_digit(s[0]) && 2 <= digit_val(s[0])
    } else if s.len() == 2 {
        is_digit(s[0]) && is_digit(s[1]) && 1 <= digit_val(s[0]) && 10 * digit_val(s[0])
            + digit_val(s[1]) <= 64
    } else {
        false
    }
}

/// `u<w>` with `w` in 2..=64.
pub open spec fn spec_is_unsigned(s: Seq<char>) -> bool {
    s.len() >= 2 && s[0] == 'u' && width_ok(s.skip(1))
}

/// `i<w>` with `w` in 2..=64.
pub open spec fn spec_is_signed(s: Seq<char>) -> bool {
    s.len() >= 2 && s[0] == 'i' && width_ok(s.skip(1))
}

/// `void<w>` with `w` in 2..=64.
pub open spec fn spec_is_void(s: Seq<char>) -> bool {
    s.len() >= 5 && s[0] == 'v' && s[1] == 'o' && s[2] == 'i' && s[3] == 'd' && width_ok(s.skip(4))
}

/// Any primitive scalar spelling.
pub open spec fn spec_is_primitive(s: Seq<char>) -> bool {
    spec_is_unsigned(s) || spec_is_signed(s) || spec_is_void(s)
}

/// Fixed-size array syntax `[...]`.
pub open spec fn spec_is_static_array(s: Seq<char>) -> bool {
    s.len() >= 2 && s[0] == '[' && s[s.len() - 1] == ']'
}

/// The variable-length container `Dynamic<...>`.
pub open spec fn spec_is_dynamic_array(s: Seq<char>) -> bool {
    s.len() >= 9 && s[0] == 'D' && s[1] == 'y' && s[2] == 'n' && s[3] == 'a' && s[4] == 'm' && s[5]
        == 'i' && s[6] == 'c' && s[7] == '<' && s[s.len() - 1] == '>'
}

/// The classification, in precedence order.
pub open spec fn spec_classify(s: Seq<char>) -> UavcanType {
    if spec_is_primitive(s) {
        UavcanType::PrimitiveType
    } else if spec_is_dynamic_array(s) {
        UavcanType::DynamicArray
    } else if spec_is_static_array(s) {
        UavcanType::StaticArray
    } else {
        UavcanType::Struct
    }
}

/// Checks the width spelling starting at character `from`.
fn width_check(s: &str, from: usize) -> (r: bool)
    requires
        from <= s@.len(),
    ensures
        r == width_ok(s@.skip(from as int)),
{
    let n = s.unicode_len();
    let k = n - from;
    if k == 1 {
        let c = s.get_char(from) as u32;
        48 <= c && c <= 57 && 50 <= c
    } else if k == 2 {
        let c0 = s.get_char(from) as u32;
        let c1 = s.get_char(from + 1) as u32;
        48 <= c0 && c0 <= 57 && 48 <= c1 && c1 <= 57 && 49 <= c0 && 10 * (c0 - 48) + (c1 - 48)
            <= 64
    } else {
        false
    }
}

/// Whether the declared type name is an unsigned scalar `u<w>`.
pub fn is_unsigned_primitive_type(s: &str) -> (r: bool)
    ensures
        r == spec_is_unsigned(s@),
{
    let n = s.unicode_len();
    if n < 2 {
        return false;
    }
    if s.get_char(0) as u32 != 117 {
        return false;
    }
    proof {
        assert(('u' as u32) == 117);
    }
    width_check(s, 1)
}

/// Whether the declared type name is a signed scalar `i<w>`.
pub fn is_signed_primitive_type(s: &str) -> (r: bool)
    ensures
        r == spec_is_signed(s@),
{
    let n = s.unicode_len();
    if n < 2 {
        return false;
    }
    if s.get_char(0) as u32 != 105 {
        return false;
    }
    proof {
        assert(('i' as u32) == 105);
    }
    width_check(s, 1)
}

/// Whether the declared type name is a void (padding) scalar `void<w>`.
pub fn is_void_primitive_type(s: &str) -> (r: bool)
    ensures
        r == spec_is_void(s@),
{
    let n = s.unicode_len();
    if n < 5 {
        return false;
    }
    let ok = s.get_char(0) as u32 == 118 && s.get_char(1) as u32 == 111 && s.get_char(2) as u32
        == 105 && s.get_char(3) as u32 == 100;
    proof {
        assert(('v' as u32) == 118 && ('o' as u32) == 111 && ('i' as u32) == 105 && ('d' as u32)
            == 100);
    }
    if !ok {
        return false;
    }
    width_check(s, 4)
}

/// Whether the declared type name is any primitive scalar.
pub fn is_primitive_type(s: &str) -> (r: bool)
    ensures
        r == spec_is_primitive(s@),
{
    is_unsigned_primitive_type(s) || is_signed_primitive_type(s) || is_void_primitive_type(s)
}

/// Whether the declared type name uses fixed-size array syntax.
pub fn is_static_array(s: &str) -> (r: bool)
    ensures
        r == spec_is_static_array(s@),
{
    let n = s.unicode_len();
    if n < 2 {
        return false;
    }
    let r = s.get_char(0) as u32 == 91 && s.get_char(n - 1) as u32 == 93;
    proof {
        assert(('[' as u32) == 91 && (']' as u32) == 93);
    }
    r
}

/// Whether the declared type name is the `Dynamic<...>` container.
pub fn is_dynamic_array(s: &str) -> (r: bool)
    ensures
        r == spec_is_dynamic_array(s@),
{
    let n = s.unicode_len();
    if n < 9 {
        return false;
    }
    let r = s.get_char(0) as u32 == 68 && s.get_char(1) as u32 == 121 && s.get_char(2) as u32
        == 110 && s.get_char(3) as u32 == 97 && s.get_char(4) as u32 == 109 && s.get_char(5) as u32
        == 105 && s.get_char(6) as u32 == 99 && s.get_char(7) as u32 == 60 && s.get_char(n - 1)
        as u32 == 62;
    proof {
        assert(('D' as u32) == 68 && ('y' as u32) == 121 && ('n' as u32) == 110 && ('a' as u32)
            == 97 && ('m' as u32) == 109 && ('i' as u32) == 105 && ('c' as u32) == 99 && ('<'
            as u32) == 60 && ('>' as u32) == 62);
    }
    r
}

/// The element-array type wrapped by a `Dynamic<...>` container, or `None`
/// for any other spelling.
pub fn array_from_dynamic<'a>(s: &'a str) -> (r: Option<&'a str>)
    ensures
        match r {
            Some(inner) => spec_is_dynamic_array(s@) && inner@ == s@.subrange(
                8,
                s@.len() - 1,
            ),
            None => !spec_is_dynamic_array(s@),
        },
{
    if is_dynamic_array(s) {
        let n = s.unicode_len();
        Some(s.substring_char(8, n - 1))
    } else {
        None
    }
}

/// Classifies a declared type name as exactly one of the four kinds,
/// checking the shapes in precedence order.
pub fn classify_type(s: &str) -> (r: UavcanType)
    ensures
        r == spec_classify(s@),
{
    if is_primitive_type(s) {
        UavcanType::PrimitiveType
    } else if is_dynamic_array(s) {
        UavcanType::DynamicArray
    } else if is_static_array(s) {
        UavcanType::StaticArray
    } else {
        UavcanType::Struct
    }
}

} // verus!
