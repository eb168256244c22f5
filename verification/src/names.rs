//! Calls into the outside crates that classify characters and convert the
//! case of identifiers. Their results are named, not restated: each wrapper
//! says that it returns the named function of its argument.

use vstd::prelude::*;

verus! {

/// Whether `c` has the Unicode `XID_Start` property, as `unicode-ident`
/// answers it.
pub uninterp spec fn xid_start(c: char) -> bool;

/// Whether `c` has the Unicode `XID_Continue` property, as `unicode-ident`
/// answers it.
pub uninterp spec fn xid_continue(c: char) -> bool;

/// The snake_case form of an identifier that `Inflector` computes.
pub uninterp spec fn snake_case(s: Seq<char>) -> Seq<char>;

/// The PascalCase form of an identifier that `Inflector` computes.
pub uninterp spec fn pascal_case(s: Seq<char>) -> Seq<char>;

/// Calls `unicode_ident::is_xid_start`; claims only that the answer is
/// [`xid_start`] of the character, a fixed table lookup.
#[verifier::external_body]
pub(crate) fn is_xid_start(c: char) -> (r: bool)
    ensures
        r == xid_start(c),
{
    unicode_ident::is_xid_start(c)
}

/// Calls `unicode_ident::is_xid_continue`; claims only that the answer is
/// [`xid_continue`] of the character, a fixed table lookup.
#[verifier::external_body]
pub(crate) fn is_xid_continue(c: char) -> (r: bool)
    ensures
        r == xid_continue(c),
{
    unicode_ident::is_xid_continue(c)
}

/// Calls `inflector::cases::snakecase::to_snake_case`; claims only that the
/// result is [`snake_case`] of the argument's characters (the conversion
/// reads nothing but its argument and does not panic).
#[verifier::external_body]
pub(crate) fn to_snake_case(s: &str) -> (r: String)
    ensures
        r@ == snake_case(s@),
{
    inflector::cases::snakecase::to_snake_case(s)
}

/// Calls `inflector::cases::pascalcase::to_pascal_case`; claims only that the
/// result is [`pascal_case`] of the argument's characters (the conversion
/// reads nothing but its argument and does not panic).
#[verifier::external_body]
pub(crate) fn to_pascal_case(s: &str) -> (r: String)
    ensures
        r@ == pascal_case(s@),
{
    inflector::cases::pascalcase::to_pascal_case(s)
}

} // verus!
