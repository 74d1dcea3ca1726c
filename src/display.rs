//! The CSS `display` value, bit-encoded in a `u16`.
//!
//! Bits 0-1 select the family (inside/outside pair, internal, box,
//! list-item); for the inside/outside family bits 2-3 hold the outer type
//! and bits 4-6 the inner type; for the internal family bits 2-5 hold the
//! internal type; for the box family bits 2-3 hold the box type.
use vstd::prelude::*;

verus! {

#[derive(Clone, Copy, PartialEq, Eq, Structural, Debug)]
pub struct Display(pub u16);

#[derive(Clone, Copy, PartialEq, Eq, Structural, Debug)]
pub enum DisplayKind {
    InsideOutside,
    Listitem,
    Internal,
    Box,
}

/// `<display-inside>`
#[derive(Clone, Copy, PartialEq, Eq, Structural, Debug)]
pub enum DisplayInside {
    Flow,
    FlowRoot,
    Table,
    Flex,
    Grid,
    Ruby,
}

/// `<display-outside>`
#[derive(Clone, Copy, PartialEq, Eq, Structural, Debug)]
pub enum DisplayOutside {
    Block,
    Inline,
    RunIn,
}

/// `<display-internal>`
#[derive(Clone, Copy, PartialEq, Eq, Structural, Debug)]
pub enum DisplayInternal {
    TableRowGroup,
    TableHeaderGroup,
    TableFooterGroup,
    TableRow,
    TableCell,
    TableColumnGroup,
    TableColumn,
    TableCaption,
    RubyBase,
    RubyText,
    RubyBaseContainer,
    RubyTextContainer,
}

/// `<display-box>`
#[derive(Clone, Copy, PartialEq, Eq, Structural, Debug)]
pub enum DisplayBox {
    Contents,
    NoBox,
}

/// `<display-legacy>`
#[derive(Clone, Copy, PartialEq, Eq, Structural, Debug)]
pub enum DisplayLegacy {
    InlineBlock,
    InlineTable,
    InlineFlex,
    InlineGrid,
}

/// A list-item display value.
#[derive(Clone, Copy, PartialEq, Eq, Structural, Debug)]
pub struct DisplayListitem(pub u16);

pub open spec fn family_bits(v: u16) -> u16 {
    v & 3
}

pub open spec fn outer_bits(v: u16) -> u16 {
    (v >> 2u16) & 3
}

pub open spec fn inner_bits(v: u16) -> u16 {
    (v >> 4u16) & 7
}

pub open spec fn internal_bits(v: u16) -> u16 {
    (v >> 2u16) & 15
}

pub open spec fn box_bits(v: u16) -> u16 {
    (v >> 2u16) & 3
}

pub open spec fn outside_of(b: u16) -> Option<DisplayOutside> {
    if b == 1 {
        Some(DisplayOutside::Block)
    } else if b == 2 {
        Some(DisplayOutside::Inline)
    } else if b == 3 {
        Some(DisplayOutside::RunIn)
    } else {
        None
    }
}

pub open spec fn inside_of(b: u16) -> Option<DisplayInside> {
    if b == 1 {
        Some(DisplayInside::Flow)
    } else if b == 2 {
        Some(DisplayInside::FlowRoot)
    } else if b == 3 {
        Some(DisplayInside::Flex)
    } else if b == 4 {
        Some(DisplayInside::Grid)
    } else if b == 5 {
        Some(DisplayInside::Ruby)
    } else if b == 6 {
        Some(DisplayInside::Table)
    } else {
        None
    }
}

pub open spec fn internal_of(b: u16) -> Option<DisplayInternal> {
    if b == 1 {
        Some(DisplayInternal::TableRowGroup)
    } else if b == 2 {
        Some(DisplayInternal::TableHeaderGroup)
    } else if b == 3 {
        Some(DisplayInternal::TableFooterGroup)
    } else if b == 4 {
        Some(DisplayInternal::TableRow)
    } else if b == 5 {
        Some(DisplayInternal::TableCell)
    } else if b == 6 {
        Some(DisplayInternal::TableColumnGroup)
    } else if b == 7 {
        Some(DisplayInternal::TableColumn)
    } else if b == 8 {
        Some(DisplayInternal::TableCaption)
    } else if b == 9 {
        Some(DisplayInternal::RubyBase)
    } else if b == 10 {
        Some(DisplayInternal::RubyText)
    } else if b == 11 {
        Some(DisplayInternal::RubyBaseContainer)
    } else if b == 12 {
        Some(DisplayInternal::RubyTextContainer)
    } else {
        None
    }
}

pub open spec fn box_of(b: u16) -> Option<DisplayBox> {
    if b == 1 {
        Some(DisplayBox::Contents)
    } else if b == 2 {
        Some(DisplayBox::NoBox)
    } else {
        None
    }
}

pub open spec fn kind_of(v: u16) -> DisplayKind {
    if family_bits(v) == 0 {
        DisplayKind::InsideOutside
    } else if family_bits(v) == 1 {
        DisplayKind::Internal
    } else if family_bits(v) == 2 {
        DisplayKind::Box
    } else {
        DisplayKind::Listitem
    }
}

/// The outer type: defined for the inside/outside and list-item families.
pub open spec fn spec_outer(v: u16) -> Option<DisplayOutside> {
    if family_bits(v) == 0 {
        outside_of(outer_bits(v))
    } else {
        None
    }
}

/// The inner bits decoded; `flow` when only the outer bits are set.
pub open spec fn decoded_inner(v: u16) -> Option<DisplayInside> {
    if inside_of(inner_bits(v)) is None && outside_of(outer_bits(v)) is Some {
        Some(DisplayInside::Flow)
    } else {
        inside_of(inner_bits(v))
    }
}

/// The inner type of an inside/outside value; when only the outer type is
/// given it is `flow`.
pub open spec fn spec_inner(v: u16) -> Option<DisplayInside> {
    if family_bits(v) == 0 {
        decoded_inner(v)
    } else {
        None
    }
}

fn outside_from_bits(b: u16) -> (r: Option<DisplayOutside>)
    ensures
        r == outside_of(b),
{
    if b == 1 {
        Some(DisplayOutside::Block)
    } else if b == 2 {
        Some(DisplayOutside::Inline)
    } else if b == 3 {
        Some(DisplayOutside::RunIn)
    } else {
        None
    }
}

fn inside_from_bits(b: u16) -> (r: Option<DisplayInside>)
    ensures
        r == inside_of(b),
{
    if b == 1 {
        Some(DisplayInside::Flow)
    } else if b == 2 {
        Some(DisplayInside::FlowRoot)
    } else if b == 3 {
        Some(DisplayInside::Flex)
    } else if b == 4 {
        Some(DisplayInside::Grid)
    } else if b == 5 {
        Some(DisplayInside::Ruby)
    } else if b == 6 {
        Some(DisplayInside::Table)
    } else {
        None
    }
}

fn internal_from_bits(b: u16) -> (r: Option<DisplayInternal>)
    ensures
        r == internal_of(b),
{
    if b == 1 {
        Some(DisplayInternal::TableRowGroup)
    } else if b == 2 {
        Some(DisplayInternal::TableHeaderGroup)
    } else if b == 3 {
        Some(DisplayInternal::TableFooterGroup)
    } else if b == 4 {
        Some(DisplayInternal::TableRow)
    } else if b == 5 {
        Some(DisplayInternal::TableCell)
    } else if b == 6 {
        Some(DisplayInternal::TableColumnGroup)
    } else if b == 7 {
        Some(DisplayInternal::TableColumn)
    } else if b == 8 {
        Some(DisplayInternal::TableCaption)
    } else if b == 9 {
        Some(DisplayInternal::RubyBase)
    } else if b == 10 {
        Some(DisplayInternal::RubyText)
    } else if b == 11 {
        Some(DisplayInternal::RubyBaseContainer)
    } else if b == 12 {
        Some(DisplayInternal::RubyTextContainer)
    } else {
        None
    }
}

fn box_from_bits(b: u16) -> (r: Option<DisplayBox>)
    ensures
        r == box_of(b),
{
    if b == 1 {
        Some(DisplayBox::Contents)
    } else if b == 2 {
        Some(DisplayBox::NoBox)
    } else {
        None
    }
}

fn decode_inner(v: u16) -> (r: Option<DisplayInside>)
    ensures
        r == decoded_inner(v),
{
    let inner = inside_from_bits((v >> 4u16) & 7);
    if inner.is_none() && outside_from_bits((v >> 2u16) & 3).is_some() {
        Some(DisplayInside::Flow)
    } else {
        inner
    }
}

impl DisplayOutside {
    pub open spec fn bits(self) -> u16 {
        match self {
            DisplayOutside::Block => 1,
            DisplayOutside::Inline => 2,
            DisplayOutside::RunIn => 3,
        }
    }

    pub fn into_u16(self) -> (r: u16)
        ensures
            r == self.bits(),
            outside_of(r) == Some(self),
    {
        match self {
            DisplayOutside::Block => 1,
            DisplayOutside::Inline => 2,
            DisplayOutside::RunIn => 3,
        }
    }

    /// The display value `<outer>` alone.
    pub fn into_display(self) -> (r: Display)
        ensures
            r.0 == self.bits() << 2u16,
            spec_outer(r.0) == Some(self),
            spec_inner(r.0) == Some(DisplayInside::Flow),
    {
        let b = self.into_u16();
        let v = b << 2u16;
        assert(family_bits(v) == 0 && outer_bits(v) == b && inner_bits(v) == 0) by (bit_vector)
            requires
                v == b << 2u16,
                1 <= b <= 3,
        ;
        Display(v)
    }
}

impl DisplayInside {
    pub open spec fn bits(self) -> u16 {
        match self {
            DisplayInside::Flow => 1,
            DisplayInside::FlowRoot => 2,
            DisplayInside::Flex => 3,
            DisplayInside::Grid => 4,
            DisplayInside::Ruby => 5,
            DisplayInside::Table => 6,
        }
    }

    pub fn into_u16(self) -> (r: u16)
        ensures
            r == self.bits(),
            inside_of(r) == Some(self),
    {
        match self {
            DisplayInside::Flow => 1,
            DisplayInside::FlowRoot => 2,
            DisplayInside::Flex => 3,
            DisplayInside::Grid => 4,
            DisplayInside::Ruby => 5,
            DisplayInside::Table => 6,
        }
    }

    /// The display value `<inner>` alone (its outer type is left unset).
    pub fn into_display(self) -> (r: Display)
        ensures
            r.0 == self.bits() << 4u16,
            spec_outer(r.0) is None,
            spec_inner(r.0) == Some(self),
    {
        let b = self.into_u16();
        let v = b << 4u16;
        assert(family_bits(v) == 0 && outer_bits(v) == 0 && inner_bits(v) == b) by (bit_vector)
            requires
                v == b << 4u16,
                1 <= b <= 6,
        ;
        Display(v)
    }
}

impl DisplayInternal {
    pub open spec fn bits(self) -> u16 {
        match self {
            DisplayInternal::TableRowGroup => 1,
            DisplayInternal::TableHeaderGroup => 2,
            DisplayInternal::TableFooterGroup => 3,
            DisplayInternal::TableRow => 4,
            DisplayInternal::TableCell => 5,
            DisplayInternal::TableColumnGroup => 6,
            DisplayInternal::TableColumn => 7,
            DisplayInternal::TableCaption => 8,
            DisplayInternal::RubyBase => 9,
            DisplayInternal::RubyText => 10,
            DisplayInternal::RubyBaseContainer => 11,
            DisplayInternal::RubyTextContainer => 12,
        }
    }

    pub fn into_u16(self) -> (r: u16)
        ensures
            r == self.bits(),
            internal_of(r) == Some(self),
    {
        match self {
            DisplayInternal::TableRowGroup => 1,
            DisplayInternal::TableHeaderGroup => 2,
            DisplayInternal::TableFooterGroup => 3,
            DisplayInternal::TableRow => 4,
            DisplayInternal::TableCell => 5,
            DisplayInternal::TableColumnGroup => 6,
            DisplayInternal::TableColumn => 7,
            DisplayInternal::TableCaption => 8,
            DisplayInternal::RubyBase => 9,
            DisplayInternal::RubyText => 10,
            DisplayInternal::RubyBaseContainer => 11,
            DisplayInternal::RubyTextContainer => 12,
        }
    }

    pub fn into_display(self) -> (r: Display)
        ensures
            kind_of(r.0) == DisplayKind::Internal,
            internal_of(internal_bits(r.0)) == Some(self),
    {
        let b = self.into_u16();
        let v = (b << 2u16) | 1;
        assert(family_bits(v) == 1 && internal_bits(v) == b) by (bit_vector)
            requires
                v == (b << 2u16) | 1,
                1 <= b <= 12,
        ;
        Display(v)
    }
}

impl DisplayBox {
    pub open spec fn bits(self) -> u16 {
        match self {
            DisplayBox::Contents => 1,
            DisplayBox::NoBox => 2,
        }
    }

    pub fn into_u16(self) -> (r: u16)
        ensures
            r == self.bits(),
            box_of(r) == Some(self),
    {
        match self {
            DisplayBox::Contents => 1,
            DisplayBox::NoBox => 2,
        }
    }

    pub fn into_display(self) -> (r: Display)
        ensures
            kind_of(r.0) == DisplayKind::Box,
            box_of(box_bits(r.0)) == Some(self),
    {
        let b = self.into_u16();
        let v = (b << 2u16) | 2;
        assert(family_bits(v) == 2 && box_bits(v) == b) by (bit_vector)
            requires
                v == (b << 2u16) | 2,
                1 <= b <= 2,
        ;
        Display(v)
    }
}

impl DisplayLegacy {
    /// `inline-block` is `inline flow-root`, and so on.
    pub fn into_display(self) -> (r: Display)
        ensures
            spec_outer(r.0) == Some(DisplayOutside::Inline),
            spec_inner(r.0) == Some(
                match self {
                    DisplayLegacy::InlineBlock => DisplayInside::FlowRoot,
                    DisplayLegacy::InlineTable => DisplayInside::Table,
                    DisplayLegacy::InlineFlex => DisplayInside::Flex,
                    DisplayLegacy::InlineGrid => DisplayInside::Grid,
                },
            ),
    {
        let inner = match self {
            DisplayLegacy::InlineBlock => DisplayInside::FlowRoot,
            DisplayLegacy::InlineTable => DisplayInside::Table,
            DisplayLegacy::InlineFlex => DisplayInside::Flex,
            DisplayLegacy::InlineGrid => DisplayInside::Grid,
        };
        Display::from_parts(DisplayOutside::Inline, inner)
    }
}

impl DisplayListitem {
    pub fn outer(&self) -> (r: Option<DisplayOutside>)
        ensures
            r == outside_of(outer_bits(self.0)),
    {
        outside_from_bits((self.0 >> 2u16) & 3)
    }
}

impl Display {
    /// The display value `<outer> <inner>`.
    pub fn from_parts(outer: DisplayOutside, inner: DisplayInside) -> (r: Display)
        ensures
            spec_outer(r.0) == Some(outer),
            spec_inner(r.0) == Some(inner),
    {
        let o = outer.into_u16();
        let i = inner.into_u16();
        let v = (o << 2u16) | (i << 4u16);
        assert(family_bits(v) == 0 && outer_bits(v) == o && inner_bits(v) == i) by (bit_vector)
            requires
                v == (o << 2u16) | (i << 4u16),
                1 <= o <= 3,
                1 <= i <= 6,
        ;
        Display(v)
    }

    pub fn kind(&self) -> (r: DisplayKind)
        ensures
            r == kind_of(self.0),
    {
        let f = self.0 & 3;
        if f == 0 {
            DisplayKind::InsideOutside
        } else if f == 1 {
            DisplayKind::Internal
        } else if f == 2 {
            DisplayKind::Box
        } else {
            DisplayKind::Listitem
        }
    }

    /// The outer display type, if any.
    pub fn outer(&self) -> (r: Option<DisplayOutside>)
        ensures
            r == spec_outer(self.0),
    {
        let f = self.0 & 3;
        if f == 0 {
            outside_from_bits((self.0 >> 2u16) & 3)
        } else {
            None
        }
    }

    /// The outer and inner types held in the bits of an inside/outside or
    /// list-item value (the inner type is `flow` when only an outer type is
    /// given).
    pub fn parts(&self) -> (r: (Option<DisplayOutside>, Option<DisplayInside>))
        ensures
            r == (outside_of(outer_bits(self.0)), decoded_inner(self.0)),
    {
        (outside_from_bits((self.0 >> 2u16) & 3), decode_inner(self.0))
    }

    /// The inner display type; `flow` when only an outer type is given.
    pub fn inner(&self) -> (r: Option<DisplayInside>)
        ensures
            r == spec_inner(self.0),
    {
        let f = self.0 & 3;
        if f == 0 {
            decode_inner(self.0)
        } else {
            None
        }
    }

    /// The internal display type, if any.
    pub fn internal(&self) -> (r: Option<DisplayInternal>)
        ensures
            r == (if family_bits(self.0) == 1 { internal_of(internal_bits(self.0)) } else { None }),
    {
        if self.0 & 3 == 1 {
            internal_from_bits((self.0 >> 2u16) & 15)
        } else {
            None
        }
    }

    /// The box display type (`contents` or `none`), if any.
    pub fn display_box(&self) -> (r: Option<DisplayBox>)
        ensures
            r == (if family_bits(self.0) == 2 { box_of(box_bits(self.0)) } else { None }),
    {
        if self.0 & 3 == 2 {
            box_from_bits((self.0 >> 2u16) & 3)
        } else {
            None
        }
    }

    /// The list-item value, for a list item whose inner type is `flow` or `flow-root`.
    pub fn listitem(&self) -> (r: Option<DisplayListitem>)
        ensures
            r == (if family_bits(self.0) == 3 && (decoded_inner(self.0) == Some(DisplayInside::Flow) || decoded_inner(
                self.0,
            ) == Some(DisplayInside::FlowRoot)) {
                Some(DisplayListitem(self.0))
            } else {
                None
            }),
    {
        if self.0 & 3 == 3 {
            let inner = decode_inner(self.0);
            if inner == Some(DisplayInside::Flow) || inner == Some(DisplayInside::FlowRoot) {
                return Some(DisplayListitem(self.0));
            }
        }
        None
    }

    /// `block flow`
    pub fn is_block_box(&self) -> (r: bool)
        ensures
            r == (spec_outer(self.0) == Some(DisplayOutside::Block) && spec_inner(self.0) == Some(
                DisplayInside::Flow,
            )),
    {
        self.outer() == Some(DisplayOutside::Block) && self.inner() == Some(DisplayInside::Flow)
    }

    /// `inline flow`
    pub fn is_inline_box(&self) -> (r: bool)
        ensures
            r == (spec_outer(self.0) == Some(DisplayOutside::Inline) && spec_inner(self.0) == Some(
                DisplayInside::Flow,
            )),
    {
        self.outer() == Some(DisplayOutside::Inline) && self.inner() == Some(DisplayInside::Flow)
    }

    /// Replaces the outer display type; the inner type is kept.
    pub fn set_outer(&mut self, outer: DisplayOutside)
        requires
            family_bits(old(self).0) == 0,
        ensures
            spec_outer(final(self).0) == Some(outer),
            inner_bits(final(self).0) == inner_bits(old(self).0),
            family_bits(final(self).0) == 0,
    {
        let o = outer.into_u16();
        let v = self.0;
        let w = (v & !12u16) | (o << 2u16);
        assert(family_bits(w) == family_bits(v) && outer_bits(w) == o && inner_bits(w) == inner_bits(v))
            by (bit_vector)
            requires
                w == (v & !12u16) | (o << 2u16),
                1 <= o <= 3,
        ;
        self.0 = w;
    }

    /// Replaces the inner display type; the outer type is kept.
    pub fn set_inner(&mut self, inner: DisplayInside)
        requires
            family_bits(old(self).0) == 0,
        ensures
            spec_inner(final(self).0) == Some(inner),
            outer_bits(final(self).0) == outer_bits(old(self).0),
            family_bits(final(self).0) == 0,
    {
        let i = inner.into_u16();
        let v = self.0;
        let w = (v & !112u16) | (i << 4u16);
        assert(family_bits(w) == family_bits(v) && outer_bits(w) == outer_bits(v) && inner_bits(w) == i)
            by (bit_vector)
            requires
                w == (v & !112u16) | (i << 4u16),
                1 <= i <= 6,
        ;
        self.0 = w;
    }

    pub fn flow() -> (r: Display)
        ensures
            spec_inner(r.0) == Some(DisplayInside::Flow),
            spec_outer(r.0) is None,
    {
        DisplayInside::Flow.into_display()
    }

    pub fn flow_root() -> (r: Display)
        ensures
            spec_inner(r.0) == Some(DisplayInside::FlowRoot),
            spec_outer(r.0) is None,
    {
        DisplayInside::FlowRoot.into_display()
    }

    pub fn table() -> (r: Display)
        ensures
            spec_inner(r.0) == Some(DisplayInside::Table),
            spec_outer(r.0) is None,
    {
        DisplayInside::Table.into_display()
    }

    pub fn flex() -> (r: Display)
        ensures
            spec_inner(r.0) == Some(DisplayInside::Flex),
            spec_outer(r.0) is None,
    {
        DisplayInside::Flex.into_display()
    }

    pub fn grid() -> (r: Display)
        ensures
            spec_inner(r.0) == Some(DisplayInside::Grid),
            spec_outer(r.0) is None,
    {
        DisplayInside::Grid.into_display()
    }

    pub fn ruby() -> (r: Display)
        ensures
            spec_inner(r.0) == Some(DisplayInside::Ruby),
            spec_outer(r.0) is None,
    {
        DisplayInside::Ruby.into_display()
    }

    pub fn block() -> (r: Display)
        ensures
            spec_outer(r.0) == Some(DisplayOutside::Block),
            spec_inner(r.0) == Some(DisplayInside::Flow),
    {
        DisplayOutside::Block.into_display()
    }

    pub fn inline() -> (r: Display)
        ensures
            spec_outer(r.0) == Some(DisplayOutside::Inline),
            spec_inner(r.0) == Some(DisplayInside::Flow),
    {
        DisplayOutside::Inline.into_display()
    }

    pub fn run_in() -> (r: Display)
        ensures
            spec_outer(r.0) == Some(DisplayOutside::RunIn),
            spec_inner(r.0) == Some(DisplayInside::Flow),
    {
        DisplayOutside::RunIn.into_display()
    }

    /// `display: none`
    pub fn none() -> (r: Display)
        ensures
            kind_of(r.0) == DisplayKind::Box,
            box_of(box_bits(r.0)) == Some(DisplayBox::NoBox),
    {
        DisplayBox::NoBox.into_display()
    }

    /// `display: contents`
    pub fn contents() -> (r: Display)
        ensures
            kind_of(r.0) == DisplayKind::Box,
            box_of(box_bits(r.0)) == Some(DisplayBox::Contents),
    {
        DisplayBox::Contents.into_display()
    }
}

impl Default for Display {
    /// The initial value, `inline`.
    fn default() -> (r: Display)
        ensures
            spec_outer(r.0) == Some(DisplayOutside::Inline),
            spec_inner(r.0) == Some(DisplayInside::Flow),
    {
        Display::inline()
    }
}

} // verus!
