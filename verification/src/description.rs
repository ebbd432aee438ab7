use vstd::prelude::*;

pub use crate::jid::{
    DOMAIN_EMPTY, DOMAIN_TOO_LONG, LOCAL_EMPTY, LOCAL_TOO_LONG, RESOURCE_EMPTY, RESOURCE_TOO_LONG,
};

verus! {

// Texts of the syntax and structure problems reported as `ParseError::BadXml`.
pub const UTF8_INVALID_CONT_BYTE: &'static str = "invalid UTF8 continuation byte";
pub const UTF8_OVERLONG_SEQUENCE: &'static str = "overlong UTF8 sequence";
pub const UTF8_INVALID_PREFIX_BYTE: &'static str = "invalid UTF8 prefix byte";
pub const CHAR_INVALID: &'static str = "invalid XML character";
pub const DOC_NO_CONTENT: &'static str = "document has no root tag";
pub const DOC_OPEN_TAGS: &'static str = "document has unclosed tags";
pub const DOC_OPEN_MARKUP: &'static str = "document epilog has unclosed PI or comment tag";
pub const DOC_CDATA_WITHOUT_PARENT: &'static str =
    "character data not allowed outside of the root tag";
pub const DOC_TOO_DEEP: &'static str = "document nesting is deeper than the address space";
pub const TAG_CLOSE_WITHOUT_OPEN: &'static str = "close tag without open";
pub const TAG_WHITESPACE_START: &'static str = "tag cannot start with whitespace";
pub const TAG_OUTSIDE_ROOT: &'static str = "tag cannot be outside of the root tag";
pub const TAG_EMPTY_NAME: &'static str = "tag has no name";
pub const TAG_DOUBLE_END: &'static str = "end tag has standalone ending too";
pub const TAG_END_TAG_ATTRIBUTES: &'static str = "end tag cannot have attributes";
pub const TAG_EMPTY_TAG_MISSING_END: &'static str =
    "empty element tags must end after the '/'";
pub const TAG_ATTRIBUTE_WITHOUT_EQUAL: &'static str =
    "tag attributes must have '=' before the value";
pub const TAG_ATTRIBUTE_WITHOUT_QUOTE: &'static str =
    "tag attribute value must be double or single quotes";
pub const TAG_ATTRIBUTE_BAD_NAME: &'static str =
    "tag attribute names cannot have '/', '<' or '>'";
pub const TAG_ATTRIBUTE_BAD_VALUE: &'static str =
    "tag attribute value cannot have '<' character without a reference";
pub const REFERENCE_INVALID_DECIMAL: &'static str = "non digit in decimal character reference";
pub const REFERENCE_INVALID_HEX: &'static str =
    "non hex digit in hexadecimal character reference";
pub const REFERENCE_CUSTOM_ENTITY: &'static str =
    "non-predefined entity references are not supported";
pub const COMMENT_MISSING_DASH: &'static str = "comment tag should start with double dash";
pub const COMMENT_MISSING_END: &'static str = "comment tag should end after double dash";
pub const MARKUP_CDATA_SECTION_BAD_START: &'static str =
    "character data sections must start with '[CDATA['";
pub const MARKUP_DOCTYPE_BAD_START: &'static str = "doctype must start with 'DOCTYPE '";
pub const MARKUP_CDATA_SECTION_OUTSIDE_ROOT: &'static str =
    "character data sections cannot be outside of the root tag";
pub const MARKUP_UNRECOGNIZED: &'static str =
    "markup is not a comment, character data section, or document type declaration";
pub const PI_MISSING_END: &'static str = "processing instruction must end after closing the '?'";
pub const RESUME_MISMATCH: &'static str =
    "parsing did not resume at the byte position returned by the previous call";
// Document structure problems.
pub const NO_DOCUMENT: &'static str = "no document parsed yet";
pub const NO_START_TAG: &'static str = "document must start with a StartTag element";
pub const TAG_MISMATCH: &'static str = "start and end tags have different names";
pub const DUPLICATE_ATTRIBUTE: &'static str = "attribute name already used in this tag";
pub const CDATA_ATTRIBUTE: &'static str = "attributes cannot be set on CDATA elements";
pub const CDATA_CHILDREN: &'static str = "child elements cannot be added on CDATA elements";
pub const NULL_CURSOR_EDIT: &'static str = "null cursor cannot edit the document";
pub const ROOT_SIBLING: &'static str = "root element cannot have siblings";

} // verus!
