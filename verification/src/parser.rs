use vstd::prelude::*;

use crate::description::{
    UTF8_INVALID_CONT_BYTE, UTF8_OVERLONG_SEQUENCE, UTF8_INVALID_PREFIX_BYTE, CHAR_INVALID, DOC_NO_CONTENT, DOC_OPEN_TAGS, DOC_OPEN_MARKUP, DOC_CDATA_WITHOUT_PARENT, DOC_TOO_DEEP, TAG_CLOSE_WITHOUT_OPEN, TAG_WHITESPACE_START, TAG_OUTSIDE_ROOT, TAG_EMPTY_NAME, TAG_DOUBLE_END, TAG_END_TAG_ATTRIBUTES, TAG_EMPTY_TAG_MISSING_END, TAG_ATTRIBUTE_WITHOUT_EQUAL, TAG_ATTRIBUTE_WITHOUT_QUOTE, TAG_ATTRIBUTE_BAD_NAME, TAG_ATTRIBUTE_BAD_VALUE, REFERENCE_INVALID_DECIMAL, REFERENCE_INVALID_HEX, REFERENCE_CUSTOM_ENTITY, COMMENT_MISSING_DASH, COMMENT_MISSING_END, MARKUP_CDATA_SECTION_BAD_START, MARKUP_DOCTYPE_BAD_START, MARKUP_CDATA_SECTION_OUTSIDE_ROOT, MARKUP_UNRECOGNIZED, PI_MISSING_END, RESUME_MISMATCH,
};
use crate::error::ParseError;
use crate::location::{Location, advance_all, lemma_advance_concat, spec_advance};

verus! {

/// An XML element returned from the parser.
#[derive(Debug, PartialEq, Eq)]
pub enum SaxElement {
    /// A start tag or empty element tag, with the full name of the tag. It is
    /// followed by zero or more `Attribute` elements, and then either
    /// `StartTagContent` or `StartTagEmpty`.
    StartTag(String),
    /// A tag attribute of the last start tag: name and value, with all
    /// references replaced by the characters they stand for.
    Attribute(String, String),
    /// The last start tag was not an empty element tag.
    StartTagContent,
    /// The last start tag was an empty element tag and has no content.
    StartTagEmpty,
    /// An end tag with the full name of the tag.
    EndTag(String),
    /// A piece of character data. A continuous block of text can come in
    /// several pieces: at the end of each parse call and at each reference.
    CData(String),
}

/// What the parser reports, over the characters of the strings.
pub enum SaxEvent {
    StartTag(Seq<char>),
    Attribute(Seq<char>, Seq<char>),
    StartTagContent,
    StartTagEmpty,
    EndTag(Seq<char>),
    CData(Seq<char>),
}

impl View for SaxElement {
    type V = SaxEvent;

    open spec fn view(&self) -> SaxEvent {
        match self {
            SaxElement::StartTag(s) => SaxEvent::StartTag(s@),
            SaxElement::Attribute(n, v) => SaxEvent::Attribute(n@, v@),
            SaxElement::StartTagContent => SaxEvent::StartTagContent,
            SaxElement::StartTagEmpty => SaxEvent::StartTagEmpty,
            SaxElement::EndTag(s) => SaxEvent::EndTag(s@),
            SaxElement::CData(s) => SaxEvent::CData(s@),
        }
    }
}

/// The states of the parser automaton.
#[derive(Clone, Copy, PartialEq, Eq, Structural)]
pub enum State {
    Prolog,
    TagStart,
    PI,
    PIEnd,
    Markup,
    CDataSectionC,
    CDataSectionCD,
    CDataSectionCDA,
    CDataSectionCDAT,
    CDataSectionCDATA,
    CDataSectionCDATAb,
    CDataSectionBody,
    CDataSectionMaybeEnd,
    CDataSectionMaybeEnd2,
    CommentStart,
    CommentBody,
    CommentMaybeEnd,
    CommentEnd,
    DoctypeDO,
    DoctypeDOC,
    DoctypeDOCT,
    DoctypeDOCTY,
    DoctypeDOCTYP,
    DoctypeDOCTYPE,
    DoctypeWhitespace,
    DoctypeSkip,
    DoctypeMarkupDecl,
    TagName,
    TagNameContinue,
    EndTagWhitespace,
    EmptyTagEnd,
    AttributeWhitespace,
    AttributeName,
    AttributeValueStart,
    AttributeValue,
    AttributeValueContinue,
    AttributeEq,
    CData,
    CDataContinue,
    Reference,
    CharReference,
    CharReferenceBody,
    HexCharReference,
    Entity,
    Epilog,
}

/// The mathematical state of a parser: the automaton state, the UTF-8
/// decoder, the nesting depth, the text collected so far and the location.
pub struct SaxModel {
    pub state: State,
    pub uni_len: u32,
    pub uni_left: u32,
    pub uni_char: u32,
    pub depth: usize,
    pub is_end_tag: bool,
    pub is_quot_value: bool,
    pub seen_content: bool,
    pub name: Seq<char>,
    pub value: Seq<char>,
    pub cdata: Seq<char>,
    pub ref_buffer: Seq<u8>,
    pub char_ref_value: u32,
    pub is_value_ref: bool,
    pub location: Location,
}

/// The outcome of one byte: nothing to report, an element after consuming
/// the byte, or an element before the byte, which is then read again.
pub enum StepOut {
    Skip,
    Emit(SaxEvent),
    EmitHere(SaxEvent),
}

/// The XML character ranges: tab, newline, carriage return and the
/// Unicode scalars other than the control and non-character codes.
pub open spec fn spec_valid_xml_char(c: u32) -> bool {
    c == 0x09 || c == 0x0a || c == 0x0d || (0x20 <= c <= 0xd7ff) || (0xe000 <= c <= 0xfffd) || (
    0x10000 <= c <= 0x10ffff)
}

/// True for the bytes that XML counts as white space.
pub open spec fn is_ws(c: u8) -> bool {
    c == 0x20 || c == 0x09 || c == 0x0d || c == 0x0a
}

pub fn is_valid_xml_char(c: u32) -> (r: bool)
    ensures
        r == spec_valid_xml_char(c),
{
    c == 0x09 || c == 0x0a || c == 0x0d || (0x20 <= c && c <= 0xd7ff) || (0xe000 <= c && c
        <= 0xfffd) || (0x10000 <= c && c <= 0x10ffff)
}

fn is_whitespace(c: u8) -> (r: bool)
    ensures
        r == is_ws(c),
{
    c == 0x20 || c == 0x09 || c == 0x0d || c == 0x0a
}

pub open spec fn push_opt(s: Seq<char>, ch: Option<char>) -> Seq<char> {
    match ch {
        Some(x) => s.push(x),
        None => s,
    }
}

pub open spec fn bad(msg: &'static str) -> ParseError {
    ParseError::BadXml(msg)
}

/// The character a predefined entity name stands for.
pub open spec fn spec_entity(name: Seq<u8>) -> Option<char> {
    if name == seq![0x61u8, 0x6d, 0x70] {
        Some('&')
    } else if name == seq![0x6cu8, 0x74] {
        Some('<')
    } else if name == seq![0x67u8, 0x74] {
        Some('>')
    } else if name == seq![0x71u8, 0x75, 0x6f, 0x74] {
        Some('"')
    } else if name == seq![0x61u8, 0x70, 0x6f, 0x73] {
        Some('\'')
    } else {
        None
    }
}

/// Adds one digit to a character reference value. A value that is
/// already beyond the Unicode range stays beyond it.
pub open spec fn ref_digit(v: u32, base: u32, d: u32) -> u32 {
    if v > 0x10ffff {
        v
    } else {
        (v * base + d) as u32
    }
}

/// The UTF-8 layer: reads byte `c` and gives the character it completes.
pub open spec fn spec_decode(m: SaxModel, c: u8) -> (SaxModel, Result<Option<char>, ParseError>) {
    if m.uni_left > 0 {
        if c & 0xc0 != 0x80 {
            (m, Err(bad(UTF8_INVALID_CONT_BYTE)))
        } else {
            let uc = ((m.uni_char << 6u32) + (c & 0x3f) as u32) as u32;
            let m1 = SaxModel { uni_char: uc, uni_left: (m.uni_left - 1) as u32, ..m };
            if m1.uni_left == 0 {
                if (m.uni_len == 2 && uc <= 0x7f) || (m.uni_len == 3 && uc <= 0x7ff) || (m.uni_len
                    == 4 && uc <= 0xffff) {
                    (m1, Err(bad(UTF8_OVERLONG_SEQUENCE)))
                } else if !spec_valid_xml_char(uc) {
                    (m1, Err(bad(CHAR_INVALID)))
                } else {
                    (m1, Ok(Some(uc as char)))
                }
            } else {
                (m1, Ok(None))
            }
        }
    } else if c & 0x80 == 0x80 {
        if c & 0x60 == 0x40 {
            (SaxModel { uni_len: 2, uni_left: 1, uni_char: (c & 0x1f) as u32, ..m }, Ok(None))
        } else if c & 0x70 == 0x60 {
            (SaxModel { uni_len: 3, uni_left: 2, uni_char: (c & 0x0f) as u32, ..m }, Ok(None))
        } else if c & 0x78 == 0x70 {
            (SaxModel { uni_len: 4, uni_left: 3, uni_char: (c & 0x07) as u32, ..m }, Ok(None))
        } else {
            (m, Err(bad(UTF8_INVALID_PREFIX_BYTE)))
        }
    } else if c < 0x20 && c != 0x09 && c != 0x0a && c != 0x0d {
        (m, Err(bad(CHAR_INVALID)))
    } else {
        (m, Ok(Some(c as char)))
    }
}

pub open spec fn with_state(m: SaxModel, s: State) -> SaxModel {
    SaxModel { state: s, ..m }
}

pub open spec fn skip_to(m: SaxModel, s: State) -> (SaxModel, Result<StepOut, ParseError>) {
    (with_state(m, s), Ok(StepOut::Skip))
}

pub open spec fn fail(m: SaxModel, msg: &'static str) -> (SaxModel, Result<StepOut, ParseError>) {
    (m, Err(bad(msg)))
}

/// Document prologue, epilogue, markup declarations, comments and
/// processing instructions.
pub open spec fn spec_markup(m: SaxModel, c: u8) -> (SaxModel, Result<StepOut, ParseError>) {
    match m.state {
        State::Prolog => if c == 0x3c {
            skip_to(m, State::TagStart)
        } else if is_ws(c) {
            (m, Ok(StepOut::Skip))
        } else {
            fail(m, DOC_CDATA_WITHOUT_PARENT)
        },
        State::Epilog => if c == 0x3c {
            skip_to(m, State::TagStart)
        } else if is_ws(c) {
            (m, Ok(StepOut::Skip))
        } else {
            fail(m, DOC_CDATA_WITHOUT_PARENT)
        },
        State::Markup => if c == 0x2d {
            skip_to(m, State::CommentStart)
        } else if c == 0x5b {
            if m.depth == 0 {
                fail(m, MARKUP_CDATA_SECTION_OUTSIDE_ROOT)
            } else {
                skip_to(m, State::CDataSectionC)
            }
        } else if c == 0x44 {
            skip_to(m, State::DoctypeDO)
        } else {
            fail(m, MARKUP_UNRECOGNIZED)
        },
        State::DoctypeDO => if c == 0x4f {
            skip_to(m, State::DoctypeDOC)
        } else {
            fail(m, MARKUP_DOCTYPE_BAD_START)
        },
        State::DoctypeDOC => if c == 0x43 {
            skip_to(m, State::DoctypeDOCT)
        } else {
            fail(m, MARKUP_DOCTYPE_BAD_START)
        },
        State::DoctypeDOCT => if c == 0x54 {
            skip_to(m, State::DoctypeDOCTY)
        } else {
            fail(m, MARKUP_DOCTYPE_BAD_START)
        },
        State::DoctypeDOCTY => if c == 0x59 {
            skip_to(m, State::DoctypeDOCTYP)
        } else {
            fail(m, MARKUP_DOCTYPE_BAD_START)
        },
        State::DoctypeDOCTYP => if c == 0x50 {
            skip_to(m, State::DoctypeDOCTYPE)
        } else {
            fail(m, MARKUP_DOCTYPE_BAD_START)
        },
        State::DoctypeDOCTYPE => if c == 0x45 {
            skip_to(m, State::DoctypeWhitespace)
        } else {
            fail(m, MARKUP_DOCTYPE_BAD_START)
        },
        State::DoctypeWhitespace => if is_ws(c) {
            skip_to(m, State::DoctypeSkip)
        } else {
            fail(m, MARKUP_DOCTYPE_BAD_START)
        },
        State::DoctypeSkip => if c == 0x3c {
            skip_to(m, State::DoctypeMarkupDecl)
        } else if c == 0x3e {
            skip_to(m, State::Prolog)
        } else {
            (m, Ok(StepOut::Skip))
        },
        State::DoctypeMarkupDecl => if c == 0x3e {
            skip_to(m, State::DoctypeSkip)
        } else {
            (m, Ok(StepOut::Skip))
        },
        State::CommentStart => if c == 0x2d {
            skip_to(m, State::CommentBody)
        } else {
            fail(m, COMMENT_MISSING_DASH)
        },
        State::CommentBody => if c == 0x2d {
            skip_to(m, State::CommentMaybeEnd)
        } else {
            (m, Ok(StepOut::Skip))
        },
        State::CommentMaybeEnd => if c == 0x2d {
            skip_to(m, State::CommentEnd)
        } else {
            skip_to(m, State::CommentBody)
        },
        State::CommentEnd => if c == 0x3e {
            if m.depth > 0 {
                skip_to(m, State::CData)
            } else if m.seen_content {
                skip_to(m, State::Epilog)
            } else {
                skip_to(m, State::Prolog)
            }
        } else {
            fail(m, COMMENT_MISSING_END)
        },
        State::PI => if c == 0x3f {
            skip_to(m, State::PIEnd)
        } else {
            (m, Ok(StepOut::Skip))
        },
        _ => if c == 0x3e {
            if m.seen_content {
                if m.depth > 0 {
                    skip_to(m, State::CData)
                } else {
                    skip_to(m, State::Epilog)
                }
            } else {
                skip_to(m, State::Prolog)
            }
        } else {
            fail(m, PI_MISSING_END)
        },
    }
}

/// The CDATA section opening `[CDATA[`, its body and its end `]]>`.
pub open spec fn spec_section(m: SaxModel, c: u8, ch: Option<char>) -> (
    SaxModel,
    Result<StepOut, ParseError>,
) {
    match m.state {
        State::CDataSectionC => if c == 0x43 {
            skip_to(m, State::CDataSectionCD)
        } else {
            fail(m, MARKUP_CDATA_SECTION_BAD_START)
        },
        State::CDataSectionCD => if c == 0x44 {
            skip_to(m, State::CDataSectionCDA)
        } else {
            fail(m, MARKUP_CDATA_SECTION_BAD_START)
        },
        State::CDataSectionCDA => if c == 0x41 {
            skip_to(m, State::CDataSectionCDAT)
        } else {
            fail(m, MARKUP_CDATA_SECTION_BAD_START)
        },
        State::CDataSectionCDAT => if c == 0x54 {
            skip_to(m, State::CDataSectionCDATA)
        } else {
            fail(m, MARKUP_CDATA_SECTION_BAD_START)
        },
        State::CDataSectionCDATA => if c == 0x41 {
            skip_to(m, State::CDataSectionCDATAb)
        } else {
            fail(m, MARKUP_CDATA_SECTION_BAD_START)
        },
        State::CDataSectionCDATAb => if c == 0x5b {
            (SaxModel { state: State::CDataSectionBody, cdata: seq![], ..m }, Ok(StepOut::Skip))
        } else {
            fail(m, MARKUP_CDATA_SECTION_BAD_START)
        },
        State::CDataSectionBody => if c == 0x5d {
            if m.cdata.len() > 0 {
                (
                    SaxModel { state: State::CDataSectionMaybeEnd, cdata: seq![], ..m },
                    Ok(StepOut::Emit(SaxEvent::CData(m.cdata))),
                )
            } else {
                skip_to(m, State::CDataSectionMaybeEnd)
            }
        } else {
            (SaxModel { cdata: push_opt(m.cdata, ch), ..m }, Ok(StepOut::Skip))
        },
        State::CDataSectionMaybeEnd => if c == 0x5d {
            skip_to(m, State::CDataSectionMaybeEnd2)
        } else {
            (
                with_state(m, State::CDataSectionBody),
                Ok(StepOut::EmitHere(SaxEvent::CData(seq![']']))),
            )
        },
        _ => if c == 0x3e {
            skip_to(m, State::CData)
        } else if c == 0x5d {
            (m, Ok(StepOut::Emit(SaxEvent::CData(seq![']']))))
        } else {
            (
                with_state(m, State::CDataSectionBody),
                Ok(StepOut::EmitHere(SaxEvent::CData(seq![']', ']']))),
            )
        },
    }
}

/// Closing a tag with `>`: one level less, and back to character data or
/// to the epilogue.
pub open spec fn close_tag(m: SaxModel) -> (SaxModel, Result<StepOut, ParseError>) {
    if m.depth == 0 {
        fail(m, TAG_CLOSE_WITHOUT_OPEN)
    } else if m.depth == 1 {
        (SaxModel { depth: 0, state: State::Epilog, ..m }, Ok(StepOut::Skip))
    } else {
        (
            SaxModel { depth: (m.depth - 1) as usize, state: State::CData, cdata: seq![], ..m },
            Ok(StepOut::Skip),
        )
    }
}

/// Attribute names: characters until `=` or white space.
pub open spec fn spec_attr_name(m: SaxModel, c: u8, ch: Option<char>) -> (
    SaxModel,
    Result<StepOut, ParseError>,
) {
    if c == 0x3d {
        skip_to(m, State::AttributeValueStart)
    } else if is_ws(c) {
        skip_to(m, State::AttributeEq)
    } else if c == 0x2f || c == 0x3e || c == 0x3c {
        fail(m, TAG_ATTRIBUTE_BAD_NAME)
    } else {
        (SaxModel { name: push_opt(m.name, ch), ..m }, Ok(StepOut::Skip))
    }
}

/// Tag start, tag names, end tags and attributes.
pub open spec fn spec_tag(m: SaxModel, c: u8, ch: Option<char>) -> (
    SaxModel,
    Result<StepOut, ParseError>,
) {
    match m.state {
        State::TagStart => if c == 0x21 {
            skip_to(m, State::Markup)
        } else if c == 0x3f {
            skip_to(m, State::PI)
        } else if c == 0x2f {
            if m.depth == 0 {
                fail(m, TAG_CLOSE_WITHOUT_OPEN)
            } else {
                (
                    SaxModel { is_end_tag: true, state: State::TagName, name: seq![], ..m },
                    Ok(StepOut::Skip),
                )
            }
        } else if is_ws(c) {
            fail(m, TAG_WHITESPACE_START)
        } else if c == 0x3e {
            fail(m, TAG_EMPTY_NAME)
        } else if m.depth == 0 && m.seen_content {
            fail(m, TAG_OUTSIDE_ROOT)
        } else if m.depth == usize::MAX {
            fail(m, DOC_TOO_DEEP)
        } else {
            (
                SaxModel {
                    depth: (m.depth + 1) as usize,
                    is_end_tag: false,
                    seen_content: true,
                    state: State::TagName,
                    name: push_opt(seq![], ch),
                    ..m
                },
                Ok(StepOut::Skip),
            )
        },
        State::TagName => if c == 0x2f || c == 0x3e || is_ws(c) {
            if m.name.len() == 0 {
                fail(m, TAG_EMPTY_NAME)
            } else if m.is_end_tag {
                if c == 0x2f {
                    fail(with_state(m, State::TagNameContinue), TAG_DOUBLE_END)
                } else {
                    (
                        SaxModel { state: State::TagNameContinue, name: seq![], ..m },
                        Ok(StepOut::EmitHere(SaxEvent::EndTag(m.name))),
                    )
                }
            } else {
                (
                    SaxModel { state: State::TagNameContinue, name: seq![], ..m },
                    Ok(StepOut::EmitHere(SaxEvent::StartTag(m.name))),
                )
            }
        } else {
            (SaxModel { name: push_opt(m.name, ch), ..m }, Ok(StepOut::Skip))
        },
        State::TagNameContinue => if c == 0x2f {
            (
                SaxModel { state: State::EmptyTagEnd, name: seq![], ..m },
                Ok(StepOut::Emit(SaxEvent::StartTagEmpty)),
            )
        } else if c == 0x3e {
            if m.is_end_tag {
                close_tag(SaxModel { name: seq![], ..m })
            } else {
                (
                    SaxModel { state: State::CData, name: seq![], cdata: seq![], ..m },
                    Ok(StepOut::Emit(SaxEvent::StartTagContent)),
                )
            }
        } else if is_ws(c) {
            if m.is_end_tag {
                (SaxModel { state: State::EndTagWhitespace, name: seq![], ..m }, Ok(StepOut::Skip))
            } else {
                (
                    SaxModel { state: State::AttributeWhitespace, name: seq![], ..m },
                    Ok(StepOut::Skip),
                )
            }
        } else {
            fail(SaxModel { name: seq![], ..m }, RESUME_MISMATCH)
        },
        State::EmptyTagEnd => if c == 0x3e {
            close_tag(m)
        } else {
            fail(m, TAG_EMPTY_TAG_MISSING_END)
        },
        State::EndTagWhitespace => if c == 0x3e {
            close_tag(m)
        } else if is_ws(c) {
            (m, Ok(StepOut::Skip))
        } else {
            fail(m, TAG_END_TAG_ATTRIBUTES)
        },
        State::AttributeWhitespace => if is_ws(c) {
            (m, Ok(StepOut::Skip))
        } else if c == 0x2f {
            if m.is_end_tag {
                fail(m, TAG_DOUBLE_END)
            } else {
                skip_emit(m, State::EmptyTagEnd, SaxEvent::StartTagEmpty)
            }
        } else if c == 0x3e {
            (
                SaxModel { state: State::CData, cdata: seq![], ..m },
                Ok(StepOut::Emit(SaxEvent::StartTagContent)),
            )
        } else {
            spec_attr_name(
                SaxModel { state: State::AttributeName, name: seq![], value: seq![], ..m },
                c,
                ch,
            )
        },
        State::AttributeName => spec_attr_name(m, c, ch),
        State::AttributeEq => if c == 0x3d {
            skip_to(m, State::AttributeValueStart)
        } else if is_ws(c) {
            (m, Ok(StepOut::Skip))
        } else {
            fail(m, TAG_ATTRIBUTE_WITHOUT_EQUAL)
        },
        State::AttributeValueStart => if c == 0x22 {
            (
                SaxModel {
                    is_quot_value: false,
                    value: seq![],
                    state: State::AttributeValue,
                    ..m
                },
                Ok(StepOut::Skip),
            )
        } else if c == 0x27 {
            (
                SaxModel { is_quot_value: true, value: seq![], state: State::AttributeValue, ..m },
                Ok(StepOut::Skip),
            )
        } else if is_ws(c) {
            (m, Ok(StepOut::Skip))
        } else {
            fail(m, TAG_ATTRIBUTE_WITHOUT_QUOTE)
        },
        State::AttributeValue => if (m.is_quot_value && c == 0x27) || (!m.is_quot_value && c
            == 0x22) {
            (
                SaxModel {
                    state: State::AttributeValueContinue,
                    name: seq![],
                    value: seq![],
                    ..m
                },
                Ok(StepOut::EmitHere(SaxEvent::Attribute(m.name, m.value))),
            )
        } else if c == 0x26 {
            (
                SaxModel { ref_buffer: seq![], is_value_ref: true, state: State::Reference, ..m },
                Ok(StepOut::Skip),
            )
        } else if c == 0x3c {
            fail(m, TAG_ATTRIBUTE_BAD_VALUE)
        } else {
            (SaxModel { value: push_opt(m.value, ch), ..m }, Ok(StepOut::Skip))
        },
        _ => (
            SaxModel { state: State::AttributeWhitespace, name: seq![], value: seq![], ..m },
            Ok(StepOut::Skip),
        ),
    }
}

pub open spec fn skip_emit(m: SaxModel, s: State, e: SaxEvent) -> (
    SaxModel,
    Result<StepOut, ParseError>,
) {
    (with_state(m, s), Ok(StepOut::Emit(e)))
}

/// Ends a reference with the character `v` it stands for: into the
/// attribute value, or out as character data.
pub open spec fn end_reference(m: SaxModel, v: char) -> (SaxModel, Result<StepOut, ParseError>) {
    if m.is_value_ref {
        (SaxModel { value: m.value.push(v), state: State::AttributeValue, ..m }, Ok(StepOut::Skip))
    } else {
        (
            SaxModel { state: State::CData, cdata: seq![], ..m },
            Ok(StepOut::Emit(SaxEvent::CData(seq![v]))),
        )
    }
}

/// Character data, entity references and character references.
pub open spec fn spec_text(m: SaxModel, c: u8, ch: Option<char>) -> (
    SaxModel,
    Result<StepOut, ParseError>,
) {
    match m.state {
        State::CData => if c == 0x3c {
            if m.cdata.len() > 0 {
                (
                    SaxModel { state: State::TagStart, cdata: seq![], ..m },
                    Ok(StepOut::Emit(SaxEvent::CData(m.cdata))),
                )
            } else {
                skip_to(m, State::TagStart)
            }
        } else if c == 0x26 {
            if m.cdata.len() > 0 {
                (
                    SaxModel { state: State::CDataContinue, cdata: seq![], ..m },
                    Ok(StepOut::EmitHere(SaxEvent::CData(m.cdata))),
                )
            } else {
                (
                    SaxModel {
                        ref_buffer: seq![],
                        is_value_ref: false,
                        state: State::Reference,
                        ..m
                    },
                    Ok(StepOut::Skip),
                )
            }
        } else {
            (SaxModel { cdata: push_opt(m.cdata, ch), ..m }, Ok(StepOut::Skip))
        },
        State::CDataContinue => (
            SaxModel { ref_buffer: seq![], is_value_ref: false, state: State::Reference, ..m },
            Ok(StepOut::Skip),
        ),
        State::Reference => if c == 0x23 {
            (
                SaxModel { char_ref_value: 0, state: State::CharReference, ..m },
                Ok(StepOut::Skip),
            )
        } else {
            (
                SaxModel { ref_buffer: m.ref_buffer.push(c), state: State::Entity, ..m },
                Ok(StepOut::Skip),
            )
        },
        State::Entity => if c == 0x3b {
            match spec_entity(m.ref_buffer) {
                Some(v) => end_reference(m, v),
                None => fail(m, REFERENCE_CUSTOM_ENTITY),
            }
        } else if m.ref_buffer.len() >= 8 {
            fail(m, REFERENCE_CUSTOM_ENTITY)
        } else {
            (SaxModel { ref_buffer: m.ref_buffer.push(c), ..m }, Ok(StepOut::Skip))
        },
        State::CharReference => if c == 0x78 {
            skip_to(m, State::HexCharReference)
        } else {
            (
                SaxModel {
                    char_ref_value: (c.wrapping_sub(0x30)) as u32,
                    state: State::CharReferenceBody,
                    ..m
                },
                Ok(StepOut::Skip),
            )
        },
        State::CharReferenceBody => if c == 0x3b {
            if !spec_valid_xml_char(m.char_ref_value) {
                fail(m, CHAR_INVALID)
            } else {
                end_reference(m, m.char_ref_value as char)
            }
        } else if 0x30 <= c <= 0x39 {
            (
                SaxModel { char_ref_value: ref_digit(m.char_ref_value, 10, (c - 0x30) as u32), ..m },
                Ok(StepOut::Skip),
            )
        } else {
            fail(m, REFERENCE_INVALID_DECIMAL)
        },
        _ => if c == 0x3b {
            if !spec_valid_xml_char(m.char_ref_value) {
                fail(m, CHAR_INVALID)
            } else {
                end_reference(m, m.char_ref_value as char)
            }
        } else if 0x30 <= c <= 0x39 {
            (
                SaxModel { char_ref_value: ref_digit(m.char_ref_value, 16, (c - 0x30) as u32), ..m },
                Ok(StepOut::Skip),
            )
        } else if 0x61 <= c <= 0x66 {
            (
                SaxModel {
                    char_ref_value: ref_digit(m.char_ref_value, 16, (c - 0x61 + 10) as u32),
                    ..m
                },
                Ok(StepOut::Skip),
            )
        } else if 0x41 <= c <= 0x46 {
            (
                SaxModel {
                    char_ref_value: ref_digit(m.char_ref_value, 16, (c - 0x41 + 10) as u32),
                    ..m
                },
                Ok(StepOut::Skip),
            )
        } else {
            fail(m, REFERENCE_INVALID_HEX)
        },
    }
}

pub open spec fn is_markup_state(s: State) -> bool {
    match s {
        State::Prolog | State::Epilog | State::Markup | State::DoctypeDO | State::DoctypeDOC
        | State::DoctypeDOCT | State::DoctypeDOCTY | State::DoctypeDOCTYP
        | State::DoctypeDOCTYPE | State::DoctypeWhitespace | State::DoctypeSkip
        | State::DoctypeMarkupDecl | State::CommentStart | State::CommentBody
        | State::CommentMaybeEnd | State::CommentEnd | State::PI | State::PIEnd => true,
        _ => false,
    }
}

pub open spec fn is_section_state(s: State) -> bool {
    match s {
        State::CDataSectionC | State::CDataSectionCD | State::CDataSectionCDA
        | State::CDataSectionCDAT | State::CDataSectionCDATA | State::CDataSectionCDATAb
        | State::CDataSectionBody | State::CDataSectionMaybeEnd | State::CDataSectionMaybeEnd2 =>
            true,
        _ => false,
    }
}

pub open spec fn is_text_state(s: State) -> bool {
    match s {
        State::CData | State::CDataContinue | State::Reference | State::Entity
        | State::CharReference | State::CharReferenceBody | State::HexCharReference => true,
        _ => false,
    }
}

/// The automaton: what byte `c`, which completes the character `ch` if
/// any, does in each state.
pub open spec fn spec_dispatch(m: SaxModel, c: u8, ch: Option<char>) -> (
    SaxModel,
    Result<StepOut, ParseError>,
) {
    if is_markup_state(m.state) {
        spec_markup(m, c)
    } else if is_section_state(m.state) {
        spec_section(m, c, ch)
    } else if is_text_state(m.state) {
        spec_text(m, c, ch)
    } else {
        spec_tag(m, c, ch)
    }
}

/// One byte of input: decoding, then the automaton; the location moves
/// past the byte when it is consumed.
pub open spec fn spec_step(m: SaxModel, c: u8) -> (SaxModel, Result<StepOut, ParseError>) {
    let (m1, d) = spec_decode(m, c);
    match d {
        Err(e) => (m1, Err(e)),
        Ok(ch) => {
            let (m2, r) = spec_dispatch(m1, c, ch);
            match r {
                Ok(StepOut::EmitHere(e)) => (m2, Ok(StepOut::EmitHere(e))),
                Ok(out) => (SaxModel { location: spec_advance(m2.location, c), ..m2 }, Ok(out)),
                Err(e) => (m2, Err(e)),
            }
        },
    }
}


/// What is left at the end of an input block: pending character data is
/// reported; only complete characters are ever reported.
pub open spec fn spec_flush(m: SaxModel) -> (SaxModel, Option<SaxEvent>) {
    if (m.state == State::CData || m.state == State::CDataSectionBody) && m.cdata.len() > 0 {
        (SaxModel { cdata: seq![], ..m }, Some(SaxEvent::CData(m.cdata)))
    } else {
        (m, None)
    }
}

/// Parsing the block `bytes` from position `pos` on: the first element
/// reported, with the position after it, or `None` when the block is used
/// up without an element, or the first error.
pub open spec fn spec_parse(m: SaxModel, bytes: Seq<u8>, pos: nat) -> (
    SaxModel,
    Result<Option<(SaxEvent, nat)>, ParseError>,
)
    decreases bytes.len() - pos,
{
    if pos >= bytes.len() {
        let (m1, f) = spec_flush(m);
        match f {
            Some(e) => (m1, Ok(Some((e, bytes.len())))),
            None => (m1, Ok(None)),
        }
    } else {
        let (m1, r) = spec_step(m, bytes[pos as int]);
        match r {
            Err(e) => (m1, Err(e)),
            Ok(StepOut::Skip) => spec_parse(m1, bytes, pos + 1),
            Ok(StepOut::Emit(e)) => (m1, Ok(Some((e, pos + 1)))),
            Ok(StepOut::EmitHere(e)) => (m1, Ok(Some((e, pos)))),
        }
    }
}

/// The position returned with an element never passes the end of the block.
pub proof fn lemma_parse_pos(m: SaxModel, bytes: Seq<u8>, pos: nat)
    requires
        pos <= bytes.len(),
    ensures
        spec_parse(m, bytes, pos).1 matches Ok(Some((e, n))) ==> pos <= n <= bytes.len(),
    decreases bytes.len() - pos,
{
    if pos < bytes.len() {
        let (m1, r) = spec_step(m, bytes[pos as int]);
        if r matches Ok(StepOut::Skip) {
            lemma_parse_pos(m1, bytes, pos + 1);
        }
    }
}

/// The automaton leaves the location alone; only the step moves it.
proof fn lemma_dispatch_location(m: SaxModel, c: u8, ch: Option<char>)
    ensures
        spec_dispatch(m, c, ch).0.location == m.location,
{
    if is_markup_state(m.state) {
    } else if is_section_state(m.state) {
    } else if is_text_state(m.state) {
    } else {
    }
}

/// Law of locations: the parser counts every byte it uses. From position
/// `pos` of a block, the byte count grows by the number of bytes used up
/// to the reported element, or up to the end of the block when none is
/// reported (as long as the count stays within `usize`).
pub proof fn law_location_counts_bytes(m: SaxModel, bytes: Seq<u8>, pos: nat)
    requires
        pos <= bytes.len(),
        m.location.bytes + (bytes.len() - pos) <= usize::MAX,
    ensures
        ({
            let (m1, r) = spec_parse(m, bytes, pos);
            &&& r matches Ok(Some((_, n))) ==> m1.location.bytes == m.location.bytes + (n - pos)
            &&& r matches Ok(None) ==> m1.location.bytes == m.location.bytes + (bytes.len() - pos)
        }),
    decreases bytes.len() - pos,
{
    if pos < bytes.len() {
        let c = bytes[pos as int];
        let (m0, d) = spec_decode(m, c);
        assert(m0.location == m.location);
        if let Ok(ch) = d {
            lemma_dispatch_location(m0, c, ch);
        }
        let (m1, r) = spec_step(m, c);
        if r matches Ok(StepOut::Skip) {
            assert(m1.location.bytes == m.location.bytes + 1);
            law_location_counts_bytes(m1, bytes, pos + 1);
        }
    }
}

/// Parsing a block from position `pos` moves the location over exactly the
/// bytes used: up to the reported element, or to the end of the block.
pub proof fn lemma_parse_location(m: SaxModel, bytes: Seq<u8>, pos: nat)
    requires
        pos <= bytes.len(),
    ensures
        ({
            let (m1, r) = spec_parse(m, bytes, pos);
            &&& r matches Ok(Some((_, n))) ==> m1.location == advance_all(
                m.location,
                bytes.subrange(pos as int, n as int),
            )
            &&& r matches Ok(None) ==> m1.location == advance_all(
                m.location,
                bytes.subrange(pos as int, bytes.len() as int),
            )
        }),
    decreases bytes.len() - pos,
{
    lemma_parse_pos(m, bytes, pos);
    if pos >= bytes.len() {
        assert(bytes.subrange(pos as int, bytes.len() as int) =~= Seq::<u8>::empty());
    } else {
        let c = bytes[pos as int];
        let (m0, d) = spec_decode(m, c);
        assert(m0.location == m.location);
        if let Ok(ch) = d {
            lemma_dispatch_location(m0, c, ch);
        }
        let (m1, r) = spec_step(m, c);
        let one = seq![c];
        assert(one.drop_last() =~= Seq::<u8>::empty());
        assert(advance_all(m.location, one.drop_last()) == m.location);
        assert(one.last() == c);
        assert(advance_all(m.location, one) == spec_advance(m.location, c));
        assert(bytes.subrange(pos as int, pos as int) =~= Seq::<u8>::empty());
        assert(bytes.subrange(pos as int, pos + 1int) =~= one);
        if r matches Ok(StepOut::Skip) {
            lemma_parse_location(m1, bytes, pos + 1);
            lemma_parse_pos(m1, bytes, pos + 1);
            let (m2, r2) = spec_parse(m1, bytes, pos + 1);
            if let Ok(Some((_, n))) = r2 {
                assert(bytes.subrange(pos as int, n as int) =~= one + bytes.subrange(pos + 1int, n as int));
                lemma_advance_concat(m.location, one, bytes.subrange(pos + 1int, n as int));
            }
            if let Ok(None) = r2 {
                assert(bytes.subrange(pos as int, bytes.len() as int) =~= one + bytes.subrange(
                    pos + 1int,
                    bytes.len() as int,
                ));
                lemma_advance_concat(m.location, one, bytes.subrange(pos + 1int, bytes.len() as int));
            }
        }
    }
}

/// The checks at the end of a document.
pub open spec fn spec_finish(m: SaxModel) -> Result<(), ParseError> {
    if !m.seen_content {
        Err(bad(DOC_NO_CONTENT))
    } else if m.depth > 0 {
        Err(bad(DOC_OPEN_TAGS))
    } else if m.state != State::Epilog {
        Err(bad(DOC_OPEN_MARKUP))
    } else {
        Ok(())
    }
}

/// A fresh parser.
pub open spec fn initial_model() -> SaxModel {
    SaxModel {
        state: State::Prolog,
        uni_len: 0,
        uni_left: 0,
        uni_char: 0,
        depth: 0,
        is_end_tag: false,
        is_quot_value: false,
        seen_content: false,
        name: seq![],
        value: seq![],
        cdata: seq![],
        ref_buffer: seq![],
        char_ref_value: 0,
        is_value_ref: false,
        location: Location { bytes: 0, lines: 0, column: 0 },
    }
}

pub open spec fn parse_view(r: Result<Option<(SaxElement, usize)>, ParseError>) -> Result<
    Option<(SaxEvent, nat)>,
    ParseError,
> {
    match r {
        Ok(Some((e, n))) => Ok(Some((e@, n as nat))),
        Ok(None) => Ok(None),
        Err(e) => Err(e),
    }
}

/// A step outcome carrying the element itself.
pub enum Stepped {
    Skip,
    Emit(SaxElement),
    EmitHere(SaxElement),
}

pub open spec fn stepped_view(r: Result<Stepped, ParseError>) -> Result<StepOut, ParseError> {
    match r {
        Ok(Stepped::Skip) => Ok(StepOut::Skip),
        Ok(Stepped::Emit(e)) => Ok(StepOut::Emit(e@)),
        Ok(Stepped::EmitHere(e)) => Ok(StepOut::EmitHere(e@)),
        Err(e) => Err(e),
    }
}

/// Moves the characters out of `s`, leaving it empty.
fn take_string(s: &mut String) -> (r: String)
    ensures
        r@ == old(s)@,
        final(s)@ == Seq::<char>::empty(),
{
    let mut out = String::new();
    core::mem::swap(&mut out, s);
    out
}

fn push_char(s: &mut String, ch: Option<char>)
    ensures
        final(s)@ == push_opt(old(s)@, ch),
{
    if let Some(x) = ch {
        s.push(x);
    }
}

fn is_empty_string(s: &String) -> (r: bool)
    ensures
        r == (s@.len() == 0),
{
    s.as_str().is_empty()
}

fn one_char(x: char) -> (r: String)
    ensures
        r@ == seq![x],
{
    let mut s = String::new();
    s.push(x);
    s
}

/// SAX (Simple API for XML) based XML parser.
///
/// It validates and processes the incoming bytes, and reports each XML
/// element as it is parsed. The input can be passed in one block or in
/// several blocks; `parse_finish` then checks that the document is
/// complete.
///
/// Only UTF-8 input is accepted. Document type declarations are skipped;
/// comments and processing instructions are parsed but produce no
/// elements; only the predefined entities are known.
pub struct SaxParser {
    state: State,
    uni_len: u32,
    uni_left: u32,
    uni_char: u32,
    depth: usize,
    is_end_tag: bool,
    is_quot_value: bool,
    seen_content: bool,
    name: String,
    value: String,
    cdata: String,
    ref_buffer: Vec<u8>,
    char_ref_value: u32,
    is_value_ref: bool,
    location: Location,
}

/// Bounds on the partial character held by the UTF-8 decoder.
pub open spec fn decoder_ok(m: SaxModel) -> bool {
    &&& m.uni_left <= 3
    &&& (m.uni_left == 3 ==> m.uni_char < 8)
    &&& (m.uni_left == 2 ==> m.uni_char < 512)
    &&& (m.uni_left == 1 ==> m.uni_char < 32768)
}

impl View for SaxParser {
    type V = SaxModel;

    closed spec fn view(&self) -> SaxModel {
        SaxModel {
            state: self.state,
            uni_len: self.uni_len,
            uni_left: self.uni_left,
            uni_char: self.uni_char,
            depth: self.depth,
            is_end_tag: self.is_end_tag,
            is_quot_value: self.is_quot_value,
            seen_content: self.seen_content,
            name: self.name@,
            value: self.value@,
            cdata: self.cdata@,
            ref_buffer: self.ref_buffer@,
            char_ref_value: self.char_ref_value,
            is_value_ref: self.is_value_ref,
            location: self.location,
        }
    }
}

impl SaxParser {
    /// The parser's internal consistency: the decoder holds a partial
    /// character of the size its state says.
    pub closed spec fn wf(&self) -> bool {
        decoder_ok(self@)
    }

    fn skip_to(&mut self, s: State) -> (r: Result<Stepped, ParseError>)
        ensures
            (final(self)@, stepped_view(r)) == skip_to(old(self)@, s),
    {
        self.state = s;
        Ok(Stepped::Skip)
    }

    fn fail(&self, msg: &'static str) -> (r: Result<Stepped, ParseError>)
        ensures
            stepped_view(r) == fail(self@, msg).1,
    {
        Err(ParseError::BadXml(msg))
    }

    fn exec_markup(&mut self, c: u8) -> (r: Result<Stepped, ParseError>)
        requires
            is_markup_state(old(self)@.state),
        ensures
            (final(self)@, stepped_view(r)) == spec_markup(old(self)@, c),
    {
        match self.state {
            State::Prolog | State::Epilog => {
                if c == 0x3c {
                    self.skip_to(State::TagStart)
                } else if is_whitespace(c) {
                    Ok(Stepped::Skip)
                } else {
                    self.fail(DOC_CDATA_WITHOUT_PARENT)
                }
            },
            State::Markup => {
                if c == 0x2d {
                    self.skip_to(State::CommentStart)
                } else if c == 0x5b {
                    if self.depth == 0 {
                        self.fail(MARKUP_CDATA_SECTION_OUTSIDE_ROOT)
                    } else {
                        self.skip_to(State::CDataSectionC)
                    }
                } else if c == 0x44 {
                    self.skip_to(State::DoctypeDO)
                } else {
                    self.fail(MARKUP_UNRECOGNIZED)
                }
            },
            State::DoctypeDO => {
                if c == 0x4f {
                    self.skip_to(State::DoctypeDOC)
                } else {
                    self.fail(MARKUP_DOCTYPE_BAD_START)
                }
            },
            State::DoctypeDOC => {
                if c == 0x43 {
                    self.skip_to(State::DoctypeDOCT)
                } else {
                    self.fail(MARKUP_DOCTYPE_BAD_START)
                }
            },
            State::DoctypeDOCT => {
                if c == 0x54 {
                    self.skip_to(State::DoctypeDOCTY)
                } else {
                    self.fail(MARKUP_DOCTYPE_BAD_START)
                }
            },
            State::DoctypeDOCTY => {
                if c == 0x59 {
                    self.skip_to(State::DoctypeDOCTYP)
                } else {
                    self.fail(MARKUP_DOCTYPE_BAD_START)
                }
            },
            State::DoctypeDOCTYP => {
                if c == 0x50 {
                    self.skip_to(State::DoctypeDOCTYPE)
                } else {
                    self.fail(MARKUP_DOCTYPE_BAD_START)
                }
            },
            State::DoctypeDOCTYPE => {
                if c == 0x45 {
                    self.skip_to(State::DoctypeWhitespace)
                } else {
                    self.fail(MARKUP_DOCTYPE_BAD_START)
                }
            },
            State::DoctypeWhitespace => {
                if is_whitespace(c) {
                    self.skip_to(State::DoctypeSkip)
                } else {
                    self.fail(MARKUP_DOCTYPE_BAD_START)
                }
            },
            State::DoctypeSkip => {
                if c == 0x3c {
                    self.skip_to(State::DoctypeMarkupDecl)
                } else if c == 0x3e {
                    self.skip_to(State::Prolog)
                } else {
                    Ok(Stepped::Skip)
                }
            },
            State::DoctypeMarkupDecl => {
                if c == 0x3e {
                    self.skip_to(State::DoctypeSkip)
                } else {
                    Ok(Stepped::Skip)
                }
            },
            State::CommentStart => {
                if c == 0x2d {
                    self.skip_to(State::CommentBody)
                } else {
                    self.fail(COMMENT_MISSING_DASH)
                }
            },
            State::CommentBody => {
                if c == 0x2d {
                    self.skip_to(State::CommentMaybeEnd)
                } else {
                    Ok(Stepped::Skip)
                }
            },
            State::CommentMaybeEnd => {
                if c == 0x2d {
                    self.skip_to(State::CommentEnd)
                } else {
                    self.skip_to(State::CommentBody)
                }
            },
            State::CommentEnd => {
                if c == 0x3e {
                    if self.depth > 0 {
                        self.skip_to(State::CData)
                    } else if self.seen_content {
                        self.skip_to(State::Epilog)
                    } else {
                        self.skip_to(State::Prolog)
                    }
                } else {
                    self.fail(COMMENT_MISSING_END)
                }
            },
            State::PI => {
                if c == 0x3f {
                    self.skip_to(State::PIEnd)
                } else {
                    Ok(Stepped::Skip)
                }
            },
            _ => {
                if c == 0x3e {
                    if self.seen_content {
                        if self.depth > 0 {
                            self.skip_to(State::CData)
                        } else {
                            self.skip_to(State::Epilog)
                        }
                    } else {
                        self.skip_to(State::Prolog)
                    }
                } else {
                    self.fail(PI_MISSING_END)
                }
            },
        }
    }

    fn exec_section(&mut self, c: u8, ch: Option<char>) -> (r: Result<Stepped, ParseError>)
        requires
            is_section_state(old(self)@.state),
        ensures
            (final(self)@, stepped_view(r)) == spec_section(old(self)@, c, ch),
    {
        match self.state {
            State::CDataSectionC => {
                if c == 0x43 {
                    self.skip_to(State::CDataSectionCD)
                } else {
                    self.fail(MARKUP_CDATA_SECTION_BAD_START)
                }
            },
            State::CDataSectionCD => {
                if c == 0x44 {
                    self.skip_to(State::CDataSectionCDA)
                } else {
                    self.fail(MARKUP_CDATA_SECTION_BAD_START)
                }
            },
            State::CDataSectionCDA => {
                if c == 0x41 {
                    self.skip_to(State::CDataSectionCDAT)
                } else {
                    self.fail(MARKUP_CDATA_SECTION_BAD_START)
                }
            },
            State::CDataSectionCDAT => {
                if c == 0x54 {
                    self.skip_to(State::CDataSectionCDATA)
                } else {
                    self.fail(MARKUP_CDATA_SECTION_BAD_START)
                }
            },
            State::CDataSectionCDATA => {
                if c == 0x41 {
                    self.skip_to(State::CDataSectionCDATAb)
                } else {
                    self.fail(MARKUP_CDATA_SECTION_BAD_START)
                }
            },
            State::CDataSectionCDATAb => {
                if c == 0x5b {
                    self.cdata = String::new();
                    self.skip_to(State::CDataSectionBody)
                } else {
                    self.fail(MARKUP_CDATA_SECTION_BAD_START)
                }
            },
            State::CDataSectionBody => {
                if c == 0x5d {
                    self.state = State::CDataSectionMaybeEnd;
                    if !is_empty_string(&self.cdata) {
                        let s = take_string(&mut self.cdata);
                        Ok(Stepped::Emit(SaxElement::CData(s)))
                    } else {
                        Ok(Stepped::Skip)
                    }
                } else {
                    push_char(&mut self.cdata, ch);
                    Ok(Stepped::Skip)
                }
            },
            State::CDataSectionMaybeEnd => {
                if c == 0x5d {
                    self.skip_to(State::CDataSectionMaybeEnd2)
                } else {
                    self.state = State::CDataSectionBody;
                    Ok(Stepped::EmitHere(SaxElement::CData(one_char(']'))))
                }
            },
            _ => {
                if c == 0x3e {
                    self.skip_to(State::CData)
                } else if c == 0x5d {
                    Ok(Stepped::Emit(SaxElement::CData(one_char(']'))))
                } else {
                    self.state = State::CDataSectionBody;
                    let mut s = String::new();
                    s.push(']');
                    s.push(']');
                    assert(s@ =~= seq![']', ']']);
                    Ok(Stepped::EmitHere(SaxElement::CData(s)))
                }
            },
        }
    }

    fn close_tag(&mut self) -> (r: Result<Stepped, ParseError>)
        ensures
            (final(self)@, stepped_view(r)) == close_tag(old(self)@),
    {
        if self.depth == 0 {
            self.fail(TAG_CLOSE_WITHOUT_OPEN)
        } else if self.depth == 1 {
            self.depth = 0;
            self.skip_to(State::Epilog)
        } else {
            self.depth = self.depth - 1;
            self.cdata = String::new();
            self.skip_to(State::CData)
        }
    }

    fn exec_attr_name(&mut self, c: u8, ch: Option<char>) -> (r: Result<Stepped, ParseError>)
        ensures
            (final(self)@, stepped_view(r)) == spec_attr_name(old(self)@, c, ch),
    {
        if c == 0x3d {
            self.skip_to(State::AttributeValueStart)
        } else if is_whitespace(c) {
            self.skip_to(State::AttributeEq)
        } else if c == 0x2f || c == 0x3e || c == 0x3c {
            self.fail(TAG_ATTRIBUTE_BAD_NAME)
        } else {
            push_char(&mut self.name, ch);
            Ok(Stepped::Skip)
        }
    }

    fn exec_tag(&mut self, c: u8, ch: Option<char>) -> (r: Result<Stepped, ParseError>)
        requires
            !is_markup_state(old(self)@.state),
            !is_section_state(old(self)@.state),
            !is_text_state(old(self)@.state),
        ensures
            (final(self)@, stepped_view(r)) == spec_tag(old(self)@, c, ch),
    {
        match self.state {
            State::TagStart => {
                if c == 0x21 {
                    self.skip_to(State::Markup)
                } else if c == 0x3f {
                    self.skip_to(State::PI)
                } else if c == 0x2f {
                    if self.depth == 0 {
                        self.fail(TAG_CLOSE_WITHOUT_OPEN)
                    } else {
                        self.is_end_tag = true;
                        self.name = String::new();
                        self.skip_to(State::TagName)
                    }
                } else if is_whitespace(c) {
                    self.fail(TAG_WHITESPACE_START)
                } else if c == 0x3e {
                    self.fail(TAG_EMPTY_NAME)
                } else if self.depth == 0 && self.seen_content {
                    self.fail(TAG_OUTSIDE_ROOT)
                } else if self.depth == usize::MAX {
                    self.fail(DOC_TOO_DEEP)
                } else {
                    self.depth = self.depth + 1;
                    self.is_end_tag = false;
                    self.seen_content = true;
                    self.name = String::new();
                    push_char(&mut self.name, ch);
                    self.skip_to(State::TagName)
                }
            },
            State::TagName => {
                if c == 0x2f || c == 0x3e || is_whitespace(c) {
                    if is_empty_string(&self.name) {
                        self.fail(TAG_EMPTY_NAME)
                    } else if self.is_end_tag {
                        if c == 0x2f {
                            self.state = State::TagNameContinue;
                            self.fail(TAG_DOUBLE_END)
                        } else {
                            self.state = State::TagNameContinue;
                            let s = take_string(&mut self.name);
                            Ok(Stepped::EmitHere(SaxElement::EndTag(s)))
                        }
                    } else {
                        self.state = State::TagNameContinue;
                        let s = take_string(&mut self.name);
                        Ok(Stepped::EmitHere(SaxElement::StartTag(s)))
                    }
                } else {
                    push_char(&mut self.name, ch);
                    Ok(Stepped::Skip)
                }
            },
            State::TagNameContinue => {
                self.name = String::new();
                if c == 0x2f {
                    self.state = State::EmptyTagEnd;
                    Ok(Stepped::Emit(SaxElement::StartTagEmpty))
                } else if c == 0x3e {
                    if self.is_end_tag {
                        self.close_tag()
                    } else {
                        self.state = State::CData;
                        self.cdata = String::new();
                        Ok(Stepped::Emit(SaxElement::StartTagContent))
                    }
                } else if is_whitespace(c) {
                    if self.is_end_tag {
                        self.skip_to(State::EndTagWhitespace)
                    } else {
                        self.skip_to(State::AttributeWhitespace)
                    }
                } else {
                    self.fail(RESUME_MISMATCH)
                }
            },
            State::EmptyTagEnd => {
                if c == 0x3e {
                    self.close_tag()
                } else {
                    self.fail(TAG_EMPTY_TAG_MISSING_END)
                }
            },
            State::EndTagWhitespace => {
                if c == 0x3e {
                    self.close_tag()
                } else if is_whitespace(c) {
                    Ok(Stepped::Skip)
                } else {
                    self.fail(TAG_END_TAG_ATTRIBUTES)
                }
            },
            State::AttributeWhitespace => {
                if is_whitespace(c) {
                    Ok(Stepped::Skip)
                } else if c == 0x2f {
                    if self.is_end_tag {
                        self.fail(TAG_DOUBLE_END)
                    } else {
                        self.state = State::EmptyTagEnd;
                        Ok(Stepped::Emit(SaxElement::StartTagEmpty))
                    }
                } else if c == 0x3e {
                    self.state = State::CData;
                    self.cdata = String::new();
                    Ok(Stepped::Emit(SaxElement::StartTagContent))
                } else {
                    self.state = State::AttributeName;
                    self.name = String::new();
                    self.value = String::new();
                    self.exec_attr_name(c, ch)
                }
            },
            State::AttributeName => self.exec_attr_name(c, ch),
            State::AttributeEq => {
                if c == 0x3d {
                    self.skip_to(State::AttributeValueStart)
                } else if is_whitespace(c) {
                    Ok(Stepped::Skip)
                } else {
                    self.fail(TAG_ATTRIBUTE_WITHOUT_EQUAL)
                }
            },
            State::AttributeValueStart => {
                if c == 0x22 {
                    self.is_quot_value = false;
                    self.value = String::new();
                    self.skip_to(State::AttributeValue)
                } else if c == 0x27 {
                    self.is_quot_value = true;
                    self.value = String::new();
                    self.skip_to(State::AttributeValue)
                } else if is_whitespace(c) {
                    Ok(Stepped::Skip)
                } else {
                    self.fail(TAG_ATTRIBUTE_WITHOUT_QUOTE)
                }
            },
            State::AttributeValue => {
                if (self.is_quot_value && c == 0x27) || (!self.is_quot_value && c == 0x22) {
                    self.state = State::AttributeValueContinue;
                    let n = take_string(&mut self.name);
                    let v = take_string(&mut self.value);
                    Ok(Stepped::EmitHere(SaxElement::Attribute(n, v)))
                } else if c == 0x26 {
                    self.ref_buffer = Vec::new();
                    self.is_value_ref = true;
                    self.skip_to(State::Reference)
                } else if c == 0x3c {
                    self.fail(TAG_ATTRIBUTE_BAD_VALUE)
                } else {
                    push_char(&mut self.value, ch);
                    Ok(Stepped::Skip)
                }
            },
            _ => {
                self.name = String::new();
                self.value = String::new();
                self.skip_to(State::AttributeWhitespace)
            },
        }
    }

    fn end_reference(&mut self, v: char) -> (r: Result<Stepped, ParseError>)
        ensures
            (final(self)@, stepped_view(r)) == end_reference(old(self)@, v),
    {
        if self.is_value_ref {
            self.value.push(v);
            self.skip_to(State::AttributeValue)
        } else {
            self.state = State::CData;
            self.cdata = String::new();
            Ok(Stepped::Emit(SaxElement::CData(one_char(v))))
        }
    }

    fn entity_char(&self) -> (r: Option<char>)
        ensures
            r == spec_entity(self.ref_buffer@),
    {
        let b = &self.ref_buffer;
        if b.len() == 3 && b[0] == 0x61 && b[1] == 0x6d && b[2] == 0x70 {
            assert(b@ =~= seq![0x61u8, 0x6d, 0x70]);
            Some('&')
        } else if b.len() == 2 && b[0] == 0x6c && b[1] == 0x74 {
            assert(b@ =~= seq![0x6cu8, 0x74]);
            Some('<')
        } else if b.len() == 2 && b[0] == 0x67 && b[1] == 0x74 {
            assert(b@ =~= seq![0x67u8, 0x74]);
            Some('>')
        } else if b.len() == 4 && b[0] == 0x71 && b[1] == 0x75 && b[2] == 0x6f && b[3] == 0x74 {
            assert(b@ =~= seq![0x71u8, 0x75, 0x6f, 0x74]);
            Some('"')
        } else if b.len() == 4 && b[0] == 0x61 && b[1] == 0x70 && b[2] == 0x6f && b[3] == 0x73 {
            assert(b@ =~= seq![0x61u8, 0x70, 0x6f, 0x73]);
            Some('\'')
        } else {
            None
        }
    }

    fn add_ref_digit(&mut self, base: u32, d: u32)
        requires
            base <= 16,
            d < 16,
        ensures
            final(self)@ == (SaxModel {
                char_ref_value: ref_digit(old(self)@.char_ref_value, base, d),
                ..old(self)@
            }),
    {
        if self.char_ref_value <= 0x10ffff {
            let v = self.char_ref_value;
            assert(v * base <= 0x10ffff * 16) by (nonlinear_arith)
                requires
                    v <= 0x10ffff,
                    base <= 16,
            ;
            self.char_ref_value = v * base + d;
        }
    }

    fn end_char_reference(&mut self) -> (r: Result<Stepped, ParseError>)
        ensures
            (final(self)@, stepped_view(r)) == (if !spec_valid_xml_char(old(self)@.char_ref_value) {
                fail(old(self)@, CHAR_INVALID)
            } else {
                end_reference(old(self)@, old(self)@.char_ref_value as char)
            }),
    {
        if !is_valid_xml_char(self.char_ref_value) {
            self.fail(CHAR_INVALID)
        } else {
            match char::from_u32(self.char_ref_value) {
                Some(x) => {
                    proof {
                        vstd::utf8::char_u32_cast(x, self.char_ref_value);
                    }
                    self.end_reference(x)
                },
                None => {
                    assert(false);
                    self.fail(CHAR_INVALID)
                },
            }
        }
    }

    fn exec_text(&mut self, c: u8, ch: Option<char>) -> (r: Result<Stepped, ParseError>)
        requires
            is_text_state(old(self)@.state),
        ensures
            (final(self)@, stepped_view(r)) == spec_text(old(self)@, c, ch),
    {
        match self.state {
            State::CData => {
                if c == 0x3c {
                    if !is_empty_string(&self.cdata) {
                        self.state = State::TagStart;
                        let s = take_string(&mut self.cdata);
                        Ok(Stepped::Emit(SaxElement::CData(s)))
                    } else {
                        self.skip_to(State::TagStart)
                    }
                } else if c == 0x26 {
                    if !is_empty_string(&self.cdata) {
                        self.state = State::CDataContinue;
                        let s = take_string(&mut self.cdata);
                        Ok(Stepped::EmitHere(SaxElement::CData(s)))
                    } else {
                        self.ref_buffer = Vec::new();
                        self.is_value_ref = false;
                        self.skip_to(State::Reference)
                    }
                } else {
                    push_char(&mut self.cdata, ch);
                    Ok(Stepped::Skip)
                }
            },
            State::CDataContinue => {
                self.ref_buffer = Vec::new();
                self.is_value_ref = false;
                self.skip_to(State::Reference)
            },
            State::Reference => {
                if c == 0x23 {
                    self.char_ref_value = 0;
                    self.skip_to(State::CharReference)
                } else {
                    self.ref_buffer.push(c);
                    self.skip_to(State::Entity)
                }
            },
            State::Entity => {
                if c == 0x3b {
                    match self.entity_char() {
                        Some(v) => self.end_reference(v),
                        None => self.fail(REFERENCE_CUSTOM_ENTITY),
                    }
                } else if self.ref_buffer.len() >= 8 {
                    self.fail(REFERENCE_CUSTOM_ENTITY)
                } else {
                    self.ref_buffer.push(c);
                    Ok(Stepped::Skip)
                }
            },
            State::CharReference => {
                if c == 0x78 {
                    self.skip_to(State::HexCharReference)
                } else {
                    self.char_ref_value = c.wrapping_sub(0x30) as u32;
                    self.skip_to(State::CharReferenceBody)
                }
            },
            State::CharReferenceBody => {
                if c == 0x3b {
                    self.end_char_reference()
                } else if 0x30 <= c && c <= 0x39 {
                    self.add_ref_digit(10, (c - 0x30) as u32);
                    Ok(Stepped::Skip)
                } else {
                    self.fail(REFERENCE_INVALID_DECIMAL)
                }
            },
            _ => {
                if c == 0x3b {
                    self.end_char_reference()
                } else if 0x30 <= c && c <= 0x39 {
                    self.add_ref_digit(16, (c - 0x30) as u32);
                    Ok(Stepped::Skip)
                } else if 0x61 <= c && c <= 0x66 {
                    self.add_ref_digit(16, (c - 0x61 + 10) as u32);
                    Ok(Stepped::Skip)
                } else if 0x41 <= c && c <= 0x46 {
                    self.add_ref_digit(16, (c - 0x41 + 10) as u32);
                    Ok(Stepped::Skip)
                } else {
                    self.fail(REFERENCE_INVALID_HEX)
                }
            },
        }
    }

    /// Creates a new parser. It can be reused for several documents with
    /// `reset`.
    pub fn new() -> (p: SaxParser)
        ensures
            p.wf(),
            p@ == initial_model(),
    {
        SaxParser {
            state: State::Prolog,
            uni_len: 0,
            uni_left: 0,
            uni_char: 0,
            depth: 0,
            is_end_tag: false,
            is_quot_value: false,
            seen_content: false,
            name: String::new(),
            value: String::new(),
            cdata: String::new(),
            ref_buffer: Vec::new(),
            char_ref_value: 0,
            is_value_ref: false,
            location: Location::new(),
        }
    }

    /// Resets the parser into a clean state.
    pub fn reset(&mut self)
        ensures
            final(self).wf(),
            final(self)@ == initial_model(),
    {
        self.state = State::Prolog;
        self.uni_len = 0;
        self.uni_left = 0;
        self.uni_char = 0;
        self.depth = 0;
        self.is_end_tag = false;
        self.is_quot_value = false;
        self.seen_content = false;
        self.name = String::new();
        self.value = String::new();
        self.cdata = String::new();
        self.ref_buffer = Vec::new();
        self.char_ref_value = 0;
        self.is_value_ref = false;
        self.location = Location::new();
    }

    /// Checks that the document is complete: it has a root tag, every tag
    /// is closed, and no comment or processing instruction is left open.
    pub fn parse_finish(&self) -> (r: Result<(), ParseError>)
        ensures
            r == spec_finish(self@),
    {
        if !self.seen_content {
            return Err(ParseError::BadXml(DOC_NO_CONTENT));
        }
        if self.depth > 0 {
            return Err(ParseError::BadXml(DOC_OPEN_TAGS));
        }
        if self.state != State::Epilog {
            return Err(ParseError::BadXml(DOC_OPEN_MARKUP));
        }
        Ok(())
    }

    /// The location of the next byte to read.
    pub fn location(&self) -> (l: Location)
        ensures
            l == self@.location,
    {
        self.location
    }

    /// Reads one byte.
    pub fn step(&mut self, c: u8) -> (r: Result<Stepped, ParseError>)
        requires
            old(self).wf(),
        ensures
            final(self).wf(),
            (final(self)@, stepped_view(r)) == spec_step(old(self)@, c),
    {
        let d = self.decode(c);
        match d {
            Err(e) => Err(e),
            Ok(ch) => {
                let r = if is_markup(self.state) {
                    self.exec_markup(c)
                } else if is_section(self.state) {
                    self.exec_section(c, ch)
                } else if is_text(self.state) {
                    self.exec_text(c, ch)
                } else {
                    self.exec_tag(c, ch)
                };
                match r {
                    Ok(Stepped::EmitHere(e)) => Ok(Stepped::EmitHere(e)),
                    Ok(out) => {
                        self.location.advance(c);
                        Ok(out)
                    },
                    Err(e) => Err(e),
                }
            },
        }
    }

    /// Parses the given bytes up to the first element. Returns the element
    /// and the number of bytes used; the rest is to be passed to the next
    /// call. Returns `None` when all bytes are used without an element.
    pub fn parse_bytes(&mut self, bytes: &[u8]) -> (r: Result<
        Option<(SaxElement, usize)>,
        ParseError,
    >)
        requires
            old(self).wf(),
        ensures
            final(self).wf(),
            (final(self)@, parse_view(r)) == spec_parse(old(self)@, bytes@, 0),
    {
        let mut pos: usize = 0;
        while pos < bytes.len()
            invariant
                self.wf(),
                pos <= bytes.len(),
                spec_parse(self@, bytes@, pos as nat) == spec_parse(old(self)@, bytes@, 0),
            decreases bytes.len() - pos,
        {
            let c = bytes[pos];
            let r = self.step(c);
            match r {
                Err(e) => {
                    return Err(e);
                },
                Ok(Stepped::Skip) => {
                    pos = pos + 1;
                },
                Ok(Stepped::Emit(e)) => {
                    return Ok(Some((e, pos + 1)));
                },
                Ok(Stepped::EmitHere(e)) => {
                    return Ok(Some((e, pos)));
                },
            }
        }
        if (self.state == State::CData || self.state == State::CDataSectionBody)
            && !is_empty_string(&self.cdata) {
            let s = take_string(&mut self.cdata);
            return Ok(Some((SaxElement::CData(s), pos)));
        }
        Ok(None)
    }

    /// Returns a lending iterator over the elements of `bytes`.
    pub fn elements<'a>(&'a mut self, bytes: &'a [u8]) -> (r: SaxElements<'a>)
        requires
            old(self).wf(),
        ensures
            r.bytes_parsed == 0,
            r.bytes == bytes,
            *r.parser == *old(self),
            *final(self) == *final(r.parser),
    {
        SaxElements::new(self, bytes)
    }

    fn decode(&mut self, c: u8) -> (r: Result<Option<char>, ParseError>)
        requires
            old(self).wf(),
        ensures
            final(self).wf(),
            (final(self)@, r) == spec_decode(old(self)@, c),
    {
        if self.uni_left > 0 {
            if c & 0xc0 != 0x80 {
                return Err(ParseError::BadXml(UTF8_INVALID_CONT_BYTE));
            }
            let old_char = self.uni_char;
            let bits = (c & 0x3f) as u32;
            assert(old_char < 32768 ==> (old_char << 6u32) <= 32767 * 64) by (bit_vector);
            assert(old_char < 512 ==> (old_char << 6u32) < 32768 - 63) by (bit_vector);
            assert(old_char < 8 ==> (old_char << 6u32) < 512 - 63) by (bit_vector);
            assert(bits <= 63) by (bit_vector)
                requires
                    bits == (c & 0x3f) as u32,
            ;
            let uc = (old_char << 6) + bits;
            self.uni_left = self.uni_left - 1;
            self.uni_char = uc;
            if self.uni_left == 0 {
                if (self.uni_len == 2 && uc <= 0x7f) || (self.uni_len == 3 && uc <= 0x7ff) || (
                self.uni_len == 4 && uc <= 0xffff) {
                    return Err(ParseError::BadXml(UTF8_OVERLONG_SEQUENCE));
                }
                if !is_valid_xml_char(uc) {
                    return Err(ParseError::BadXml(CHAR_INVALID));
                }
                match char::from_u32(uc) {
                    Some(x) => {
                        proof {
                            vstd::utf8::char_u32_cast(x, uc);
                        }
                        Ok(Some(x))
                    },
                    None => {
                        assert(false);
                        Err(ParseError::BadXml(CHAR_INVALID))
                    },
                }
            } else {
                Ok(None)
            }
        } else if c & 0x80 == 0x80 {
            if c & 0x60 == 0x40 {
                self.uni_len = 2;
                self.uni_char = (c & 0x1f) as u32;
                assert(((c & 0x1f) as u32) < 32768) by (bit_vector);
                self.uni_left = 1;
                Ok(None)
            } else if c & 0x70 == 0x60 {
                self.uni_len = 3;
                self.uni_char = (c & 0x0f) as u32;
                assert(((c & 0x0f) as u32) < 512) by (bit_vector);
                self.uni_left = 2;
                Ok(None)
            } else if c & 0x78 == 0x70 {
                self.uni_len = 4;
                self.uni_char = (c & 0x07) as u32;
                assert(((c & 0x07) as u32) < 8) by (bit_vector);
                self.uni_left = 3;
                Ok(None)
            } else {
                Err(ParseError::BadXml(UTF8_INVALID_PREFIX_BYTE))
            }
        } else if c < 0x20 && c != 0x09 && c != 0x0a && c != 0x0d {
            Err(ParseError::BadXml(CHAR_INVALID))
        } else {
            Ok(Some(c as char))
        }
    }
}

fn is_markup(s: State) -> (r: bool)
    ensures
        r == is_markup_state(s),
{
    match s {
        State::Prolog | State::Epilog | State::Markup | State::DoctypeDO | State::DoctypeDOC
        | State::DoctypeDOCT | State::DoctypeDOCTY | State::DoctypeDOCTYP
        | State::DoctypeDOCTYPE | State::DoctypeWhitespace | State::DoctypeSkip
        | State::DoctypeMarkupDecl | State::CommentStart | State::CommentBody
        | State::CommentMaybeEnd | State::CommentEnd | State::PI | State::PIEnd => true,
        _ => false,
    }
}

fn is_section(s: State) -> (r: bool)
    ensures
        r == is_section_state(s),
{
    match s {
        State::CDataSectionC | State::CDataSectionCD | State::CDataSectionCDA
        | State::CDataSectionCDAT | State::CDataSectionCDATA | State::CDataSectionCDATAb
        | State::CDataSectionBody | State::CDataSectionMaybeEnd | State::CDataSectionMaybeEnd2 =>
            true,
        _ => false,
    }
}

fn is_text(s: State) -> (r: bool)
    ensures
        r == is_text_state(s),
{
    match s {
        State::CData | State::CDataContinue | State::Reference | State::Entity
        | State::CharReference | State::CharReferenceBody | State::HexCharReference => true,
        _ => false,
    }
}

/// Lending iterator over the elements of one input block.
pub struct SaxElements<'a> {
    pub parser: &'a mut SaxParser,
    pub bytes: &'a [u8],
    pub bytes_parsed: usize,
}

impl<'a> SaxElements<'a> {
    pub fn new(parser: &'a mut SaxParser, bytes: &'a [u8]) -> (r: Self)
        ensures
            r.bytes_parsed == 0,
            r.bytes == bytes,
            *r.parser == *old(parser),
            *final(parser) == *final(r.parser),
    {
        SaxElements { parser, bytes, bytes_parsed: 0 }
    }

    /// Parses the next element of the block: `None` when the block is used
    /// up, otherwise the element or the error.
    pub fn next(&mut self) -> (r: Option<Result<SaxElement, ParseError>>)
        requires
            old(self).parser.wf(),
        ensures
            final(self).parser.wf(),
            final(self).bytes == old(self).bytes,
            (final(self).parser@, final(self).bytes_parsed as nat, next_view(r)) == spec_next(
                old(self).parser@,
                old(self).bytes@,
                old(self).bytes_parsed as nat,
            ),
    {
        if self.bytes_parsed >= self.bytes.len() {
            None
        } else {
            let rest = vstd::slice::slice_subrange(self.bytes, self.bytes_parsed, self.bytes.len());
            proof {
                lemma_parse_pos(self.parser@, rest@, 0);
            }
            match self.parser.parse_bytes(rest) {
                Ok(Some((element, n))) => {
                    self.bytes_parsed = self.bytes_parsed + n;
                    Some(Ok(element))
                },
                Ok(None) => {
                    self.bytes_parsed = self.bytes.len();
                    None
                },
                Err(err) => Some(Err(err)),
            }
        }
    }
}

pub open spec fn next_view(r: Option<Result<SaxElement, ParseError>>) -> Option<
    Result<SaxEvent, ParseError>,
> {
    match r {
        Some(Ok(e)) => Some(Ok(e@)),
        Some(Err(e)) => Some(Err(e)),
        None => None,
    }
}

/// One call of the element iterator over the block `bytes`, of which
/// `parsed` bytes are already used: the parser state, the new count of used
/// bytes, and the report.
pub open spec fn spec_next(m: SaxModel, bytes: Seq<u8>, parsed: nat) -> (
    SaxModel,
    nat,
    Option<Result<SaxEvent, ParseError>>,
) {
    if parsed >= bytes.len() {
        (m, parsed, None)
    } else {
        let (m1, r) = spec_parse(m, bytes.subrange(parsed as int, bytes.len() as int), 0);
        match r {
            Ok(Some((e, n))) => (m1, parsed + n, Some(Ok(e))),
            Ok(None) => (m1, bytes.len(), None),
            Err(e) => (m1, parsed, Some(Err(e))),
        }
    }
}

/// The states in which the parser can report an element before reading
/// the byte at hand, which it then reads again.
pub open spec fn resumes(s: State) -> bool {
    s == State::CDataSectionMaybeEnd || s == State::CDataSectionMaybeEnd2 || s == State::TagName
        || s == State::AttributeValue || s == State::CData
}

/// A report before the byte leaves a state that cannot do it again.
pub proof fn lemma_step_here(m: SaxModel, c: u8)
    ensures
        spec_step(m, c).1 matches Ok(StepOut::EmitHere(_)) ==> resumes(m.state) && !resumes(
            spec_step(m, c).0.state,
        ),
{
    let (m1, d) = spec_decode(m, c);
    assert(m1.state == m.state);
    if let Ok(ch) = d {
        if is_markup_state(m1.state) {
            assert(!(spec_markup(m1, c).1 matches Ok(StepOut::EmitHere(_))));
        } else if is_section_state(m1.state) {
            let (m2, r) = spec_section(m1, c, ch);
            assert(r matches Ok(StepOut::EmitHere(_)) ==> resumes(m1.state) && !resumes(m2.state));
        } else if is_text_state(m1.state) {
            let (m2, r) = spec_text(m1, c, ch);
            assert(r matches Ok(StepOut::EmitHere(_)) ==> resumes(m1.state) && !resumes(m2.state));
        } else {
            let (m2, r) = spec_tag(m1, c, ch);
            assert(r matches Ok(StepOut::EmitHere(_)) ==> resumes(m1.state) && !resumes(m2.state));
        }
    }
}

/// A step fails only with a syntax error.
pub proof fn lemma_step_bad(m: SaxModel, c: u8)
    ensures
        spec_step(m, c).1 matches Err(e) ==> e is BadXml,
{
    let (m1, d) = spec_decode(m, c);
    if let Ok(ch) = d {
        if is_markup_state(m1.state) {
            assert(spec_markup(m1, c).1 matches Err(e) ==> e is BadXml);
        } else if is_section_state(m1.state) {
            assert(spec_section(m1, c, ch).1 matches Err(e) ==> e is BadXml);
        } else if is_text_state(m1.state) {
            assert(spec_text(m1, c, ch).1 matches Err(e) ==> e is BadXml);
        } else {
            assert(spec_tag(m1, c, ch).1 matches Err(e) ==> e is BadXml);
        }
    }
}

/// An end tag being read is inside an open tag.
pub open spec fn end_tag_inside(m: SaxModel) -> bool {
    m.state == State::TagName && m.is_end_tag ==> m.depth > 0
}

/// A step keeps an end tag inside an open tag, and reports an end tag only
/// while a tag is open, leaving the depth as it is.
pub proof fn lemma_step_end_tag(m: SaxModel, c: u8)
    requires
        end_tag_inside(m),
    ensures
        end_tag_inside(spec_step(m, c).0),
        spec_step(m, c).1 matches Ok(StepOut::EmitHere(SaxEvent::EndTag(_))) ==> m.depth > 0
            && spec_step(m, c).0.depth == m.depth,
        spec_step(m, c).1 matches Ok(StepOut::Emit(SaxEvent::EndTag(_))) ==> m.depth > 0
            && spec_step(m, c).0.depth == m.depth,
{
    let (m1, d) = spec_decode(m, c);
    assert(m1.state == m.state && m1.depth == m.depth && m1.is_end_tag == m.is_end_tag);
    if let Ok(ch) = d {
        if is_markup_state(m1.state) {
            let (m2, r) = spec_markup(m1, c);
            assert(end_tag_inside(m2));
            assert(!(r matches Ok(StepOut::EmitHere(SaxEvent::EndTag(_)))));
            assert(!(r matches Ok(StepOut::Emit(SaxEvent::EndTag(_)))));
        } else if is_section_state(m1.state) {
            let (m2, r) = spec_section(m1, c, ch);
            assert(end_tag_inside(m2));
            assert(!(r matches Ok(StepOut::EmitHere(SaxEvent::EndTag(_)))));
            assert(!(r matches Ok(StepOut::Emit(SaxEvent::EndTag(_)))));
        } else if is_text_state(m1.state) {
            let (m2, r) = spec_text(m1, c, ch);
            assert(end_tag_inside(m2));
            assert(!(r matches Ok(StepOut::EmitHere(SaxEvent::EndTag(_)))));
            assert(!(r matches Ok(StepOut::Emit(SaxEvent::EndTag(_)))));
        } else {
            let (m2, r) = spec_tag(m1, c, ch);
            assert(end_tag_inside(m2));
            assert(r matches Ok(StepOut::EmitHere(SaxEvent::EndTag(_))) ==> m1.depth > 0
                && m2.depth == m1.depth);
            assert(!(r matches Ok(StepOut::Emit(SaxEvent::EndTag(_)))));
        }
    }
}

/// Parsing a block keeps an end tag inside an open tag, and reports an end
/// tag only while a tag is open.
pub proof fn lemma_parse_end_tag(m: SaxModel, bytes: Seq<u8>, pos: nat)
    requires
        end_tag_inside(m),
    ensures
        end_tag_inside(spec_parse(m, bytes, pos).0),
        spec_parse(m, bytes, pos).1 matches Ok(Some((SaxEvent::EndTag(_), _))) ==> spec_parse(
            m,
            bytes,
            pos,
        ).0.depth > 0,
    decreases bytes.len() - pos,
{
    if pos < bytes.len() {
        lemma_step_end_tag(m, bytes[pos as int]);
        let (m1, r) = spec_step(m, bytes[pos as int]);
        if r matches Ok(StepOut::Skip) {
            lemma_parse_end_tag(m1, bytes, pos + 1);
        }
    } else {
        let (m1, f) = spec_flush(m);
        assert(m1.state == m.state && m1.depth == m.depth && m1.is_end_tag == m.is_end_tag);
    }
}

/// The parser is inside a start tag whose name it has reported: among its
/// attributes, before the tag is closed.
pub open spec fn opening(m: SaxModel) -> bool {
    ||| m.state == State::TagNameContinue && !m.is_end_tag
    ||| m.state == State::AttributeWhitespace || m.state == State::AttributeName || m.state
        == State::AttributeEq || m.state == State::AttributeValueStart || m.state
        == State::AttributeValue || m.state == State::AttributeValueContinue
    ||| m.is_value_ref && (m.state == State::Reference || m.state == State::Entity || m.state
        == State::CharReference || m.state == State::CharReferenceBody || m.state
        == State::HexCharReference)
}

/// An element that belongs to an open start tag: an attribute, or the end
/// of the start tag.
pub open spec fn tag_part(e: SaxEvent) -> bool {
    e is Attribute || e is StartTagContent || e is StartTagEmpty
}

/// An element after which the start tag is still open.
pub open spec fn keeps_tag_open(e: SaxEvent) -> bool {
    e is StartTag || e is Attribute
}

/// The parser has just reported an end tag's name and reads the byte that
/// ended it again.
pub open spec fn end_name_read(m: SaxModel) -> bool {
    m.state == State::TagNameContinue && m.is_end_tag
}

/// The byte `c` can follow: after an end tag's name only `>` or white
/// space, the byte that ended the name.
pub open spec fn resume_ok(m: SaxModel, c: u8) -> bool {
    end_name_read(m) ==> c == 0x3e || is_ws(c)
}

/// One step: the parts of a start tag come only while it is open, a start
/// tag opens one, an attribute keeps it open and its end closes it.
pub proof fn lemma_step_order(m: SaxModel, c: u8)
    requires
        resume_ok(m, c),
    ensures
        ({
            let (m1, r) = spec_step(m, c);
            &&& r matches Ok(StepOut::Skip) ==> opening(m1) == opening(m) && !end_name_read(m1)
            &&& r matches Ok(StepOut::Emit(e)) ==> tag_part(e) == opening(m) && opening(m1)
                == keeps_tag_open(e) && !end_name_read(m1)
            &&& r matches Ok(StepOut::EmitHere(e)) ==> tag_part(e) == opening(m) && opening(m1)
                == keeps_tag_open(e) && resume_ok(m1, c)
        }),
{
    let (m1, d) = spec_decode(m, c);
    assert(m1.state == m.state && m1.is_end_tag == m.is_end_tag && m1.is_value_ref
        == m.is_value_ref);
    if let Ok(ch) = d {
        if is_markup_state(m1.state) {
            let (m2, r) = spec_markup(m1, c);
            assert(!opening(m1) && !opening(m2) && !end_name_read(m2));
            assert(r matches Ok(StepOut::Emit(e)) ==> !tag_part(e) && !keeps_tag_open(e));
            assert(!(r matches Ok(StepOut::EmitHere(_))));
        } else if is_section_state(m1.state) {
            let (m2, r) = spec_section(m1, c, ch);
            assert(!opening(m1) && !opening(m2) && !end_name_read(m2));
            assert(r matches Ok(StepOut::Emit(e)) ==> !tag_part(e) && !keeps_tag_open(e));
            assert(r matches Ok(StepOut::EmitHere(e)) ==> !tag_part(e) && !keeps_tag_open(e));
        } else if is_text_state(m1.state) {
            let (m2, r) = spec_text(m1, c, ch);
            assert(!end_name_read(m2));
            assert(r matches Ok(StepOut::Skip) ==> opening(m2) == opening(m1));
            assert(r matches Ok(StepOut::Emit(e)) ==> !opening(m1) && !tag_part(e)
                && !keeps_tag_open(e) && !opening(m2));
            assert(r matches Ok(StepOut::EmitHere(e)) ==> !opening(m1) && !tag_part(e)
                && !keeps_tag_open(e) && !opening(m2));
        } else {
            let (m2, r) = spec_tag(m1, c, ch);
            assert(r matches Ok(StepOut::Skip) ==> opening(m2) == opening(m1) && !end_name_read(
                m2,
            ));
            assert(r matches Ok(StepOut::Emit(e)) ==> tag_part(e) == opening(m1) && opening(m2)
                == keeps_tag_open(e) && !end_name_read(m2));
            assert(r matches Ok(StepOut::EmitHere(e)) ==> tag_part(e) == opening(m1) && opening(
                m2,
            ) == keeps_tag_open(e) && resume_ok(m2, c));
        }
    }
}

/// Parsing a block from position `pos`: the element reported, if any, is a
/// part of a start tag exactly when one is open, and the next byte can
/// follow.
pub proof fn lemma_parse_order(m: SaxModel, bytes: Seq<u8>, pos: nat)
    requires
        pos <= bytes.len(),
        pos < bytes.len() ==> resume_ok(m, bytes[pos as int]),
        pos == bytes.len() ==> !end_name_read(m),
    ensures
        ({
            let (m1, r) = spec_parse(m, bytes, pos);
            &&& r matches Ok(Some((e, n))) ==> tag_part(e) == opening(m) && opening(m1)
                == keeps_tag_open(e) && (n < bytes.len() ==> resume_ok(m1, bytes[n as int])) && (
            n == bytes.len() ==> !end_name_read(m1))
            &&& r matches Ok(None) ==> opening(m1) == opening(m) && !end_name_read(m1)
        }),
    decreases bytes.len() - pos,
{
    lemma_parse_pos(m, bytes, pos);
    if pos < bytes.len() {
        lemma_step_order(m, bytes[pos as int]);
        let (m1, r) = spec_step(m, bytes[pos as int]);
        if r matches Ok(StepOut::Skip) {
            lemma_parse_order(m1, bytes, pos + 1);
        }
    }
}

/// Whether the tag being read counts in the depth without its element
/// being reported yet: a start tag whose name is still being read, or an
/// end tag or empty tag that is reported but not yet closed by its `>`.
pub open spec fn tag_pending(m: SaxModel) -> int {
    if (m.state == State::TagName && !m.is_end_tag) || m.state == State::EmptyTagEnd || m.state
        == State::EndTagWhitespace || (m.is_end_tag && m.state == State::TagNameContinue) {
        1
    } else {
        0
    }
}

/// How an element changes the number of open tags: a start tag opens one,
/// an end tag or the end of an empty tag closes one.
pub open spec fn tag_balance(e: SaxEvent) -> int {
    match e {
        SaxEvent::StartTag(_) => 1,
        SaxEvent::EndTag(_) => -1,
        SaxEvent::StartTagEmpty => -1,
        _ => 0,
    }
}

/// One step changes the depth, less the pending tag, by the balance of the
/// element it reports.
#[verifier::rlimit(40)]
pub proof fn lemma_step_depth(m: SaxModel, c: u8)
    requires
        resume_ok(m, c),
    ensures
        ({
            let (m1, r) = spec_step(m, c);
            &&& r matches Ok(StepOut::Skip) ==> m1.depth - tag_pending(m1) == m.depth
                - tag_pending(m)
            &&& r matches Ok(StepOut::Emit(e)) ==> m1.depth - tag_pending(m1) == m.depth
                - tag_pending(m) + tag_balance(e)
            &&& r matches Ok(StepOut::EmitHere(e)) ==> m1.depth - tag_pending(m1) == m.depth
                - tag_pending(m) + tag_balance(e)
        }),
{
    let (m1, d) = spec_decode(m, c);
    assert(m1.state == m.state && m1.is_end_tag == m.is_end_tag && m1.depth == m.depth);
    if let Ok(ch) = d {
        if is_markup_state(m1.state) {
            let (m2, r) = spec_markup(m1, c);
            assert(m2.depth == m1.depth && tag_pending(m2) == 0 && tag_pending(m1) == 0);
            assert(r matches Ok(StepOut::Emit(e)) ==> tag_balance(e) == 0);
        } else if is_section_state(m1.state) {
            let (m2, r) = spec_section(m1, c, ch);
            assert(m2.depth == m1.depth && tag_pending(m2) == 0 && tag_pending(m1) == 0);
            assert(r matches Ok(StepOut::Emit(e)) ==> tag_balance(e) == 0);
            assert(r matches Ok(StepOut::EmitHere(e)) ==> tag_balance(e) == 0);
        } else if is_text_state(m1.state) {
            let (m2, r) = spec_text(m1, c, ch);
            assert(m2.depth == m1.depth && tag_pending(m2) == 0 && tag_pending(m1) == 0);
            assert(r matches Ok(StepOut::Emit(e)) ==> tag_balance(e) == 0);
            assert(r matches Ok(StepOut::EmitHere(e)) ==> tag_balance(e) == 0);
        } else {
            let (m2, r) = spec_tag(m1, c, ch);
            assert(r matches Ok(StepOut::Skip) ==> m2.depth - tag_pending(m2) == m1.depth
                - tag_pending(m1));
            assert(r matches Ok(StepOut::Emit(e)) ==> m2.depth - tag_pending(m2) == m1.depth
                - tag_pending(m1) + tag_balance(e));
            assert(r matches Ok(StepOut::EmitHere(e)) ==> m2.depth - tag_pending(m2) == m1.depth
                - tag_pending(m1) + tag_balance(e));
        }
    }
}

/// Parsing a block changes the depth, less the pending tag, by the balance
/// of the element reported, if any.
pub proof fn lemma_parse_depth(m: SaxModel, bytes: Seq<u8>, pos: nat)
    requires
        pos <= bytes.len(),
        pos < bytes.len() ==> resume_ok(m, bytes[pos as int]),
        pos == bytes.len() ==> !end_name_read(m),
    ensures
        ({
            let (m1, r) = spec_parse(m, bytes, pos);
            &&& r matches Ok(Some((e, n))) ==> m1.depth - tag_pending(m1) == m.depth
                - tag_pending(m) + tag_balance(e)
            &&& r matches Ok(None) ==> m1.depth - tag_pending(m1) == m.depth - tag_pending(m)
        }),
    decreases bytes.len() - pos,
{
    if pos < bytes.len() {
        lemma_step_depth(m, bytes[pos as int]);
        lemma_step_order(m, bytes[pos as int]);
        let (m1, r) = spec_step(m, bytes[pos as int]);
        if r matches Ok(StepOut::Skip) {
            lemma_parse_depth(m1, bytes, pos + 1);
        }
    }
}

/// Parsing a block fails only with a syntax error.
pub proof fn lemma_parse_bad(m: SaxModel, bytes: Seq<u8>, pos: nat)
    ensures
        spec_parse(m, bytes, pos).1 matches Err(e) ==> e is BadXml,
    decreases bytes.len() - pos,
{
    if pos < bytes.len() {
        lemma_step_bad(m, bytes[pos as int]);
        let (m1, r) = spec_step(m, bytes[pos as int]);
        if r matches Ok(StepOut::Skip) {
            lemma_parse_bad(m1, bytes, pos + 1);
        }
    }
}

/// Each call of the element iterator that reports an element either moves
/// forward in the block, or stays and leaves a resuming state.
pub proof fn lemma_next_progress(m: SaxModel, bytes: Seq<u8>, parsed: nat)
    ensures
        ({
            let (m1, p1, r) = spec_next(m, bytes, parsed);
            &&& r matches Some(Ok(_)) ==> p1 > parsed || (p1 == parsed && resumes(m.state)
                && !resumes(m1.state))
            &&& parsed <= bytes.len() ==> p1 <= bytes.len()
        }),
{
    if parsed < bytes.len() {
        let rest = bytes.subrange(parsed as int, bytes.len() as int);
        assert(rest.len() > 0);
        lemma_parse_pos(m, rest, 0);
        let (m1, r1) = spec_step(m, rest[0]);
        lemma_step_here(m, rest[0]);
        if r1 matches Ok(StepOut::Skip) {
            lemma_parse_pos(m1, rest, 1);
        }
    }
}

} // verus!
