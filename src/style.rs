//! Computed style values read by box generation, and the
//! blockification / inlinification rules.
use vstd::prelude::*;
use crate::display::{family_bits, spec_inner, spec_outer, Display, DisplayInside, DisplayOutside};

verus! {

#[derive(Clone, Copy, PartialEq, Eq, Structural, Debug, Default)]
pub struct Integer(pub i32);

/// The `order` property.
#[derive(Clone, Copy, PartialEq, Eq, Structural, Debug, Default)]
pub struct Order(pub Integer);

/// The `visibility` property.
#[derive(Clone, Copy, PartialEq, Eq, Structural, Debug)]
pub enum Visibility {
    Collapse,
    Hidden,
    Visible,
}

impl Default for Visibility {
    fn default() -> (r: Visibility)
        ensures
            r == Visibility::Visible,
    {
        Visibility::Visible
    }
}

#[derive(Clone, Copy, PartialEq, Eq, Structural, Debug)]
pub enum LengthUnit {
    Em,
    Ex,
    Ch,
    Rem,
    Vw,
    Vh,
    Vmin,
    Vmax,
    Cm,
    Mm,
    Q,
    In,
    Pt,
    Pc,
    Px,
}

impl LengthUnit {
    /// Font- and viewport-relative units.
    pub fn is_relative(&self) -> (r: bool)
        ensures
            r == (*self is Em || *self is Ex || *self is Ch || *self is Vw || *self is Vh || *self is Vmin
                || *self is Vmax),
    {
        match self {
            LengthUnit::Em | LengthUnit::Ex | LengthUnit::Ch | LengthUnit::Vw | LengthUnit::Vh
            | LengthUnit::Vmin | LengthUnit::Vmax => true,
            _ => false,
        }
    }

    /// Physical units.
    pub fn is_absolute(&self) -> (r: bool)
        ensures
            r == (*self is Cm || *self is Mm || *self is Q || *self is In || *self is Pt || *self is Pc
                || *self is Px),
    {
        match self {
            LengthUnit::Cm | LengthUnit::Mm | LengthUnit::Q | LengthUnit::In | LengthUnit::Pt
            | LengthUnit::Pc | LengthUnit::Px => true,
            _ => false,
        }
    }
}

#[derive(Clone, Copy, PartialEq, Eq, Structural, Debug)]
pub enum AngleUnit {
    Deg,
    Grad,
    Rad,
    Turn,
}

#[derive(Clone, Copy, PartialEq, Eq, Structural, Debug)]
pub enum FrequencyUnit {
    Hz,
    KHz,
}

#[derive(Clone, Copy, PartialEq, Eq, Structural, Debug)]
pub enum ResolutionUnit {
    Dpi,
    Dpcm,
    Dppx,
}

/// A hexadecimal color, as written.
#[derive(Clone, Debug)]
pub struct HexColor(pub String);

#[derive(Clone, Copy, PartialEq, Eq, Structural, Debug)]
pub struct NamedColor;

#[derive(Clone, Copy, PartialEq, Eq, Structural, Debug)]
pub struct SystemColor;

#[derive(Clone, Copy, PartialEq, Eq, Structural, Debug)]
pub struct DeviceCmyk;

#[derive(Clone, Copy, PartialEq, Eq, Structural, Debug)]
pub struct LightDark;

/// The computed values that layout reads.
#[derive(Clone, Copy, PartialEq, Eq, Structural, Debug)]
pub struct Properties {
    pub display: Display,
    pub order: Order,
    pub visibility: Visibility,
}

impl Properties {
    /// Initial values: `inline`, order 0, visible.
    pub fn new() -> (r: Properties)
        ensures
            spec_outer(r.display.0) == Some(DisplayOutside::Inline),
            spec_inner(r.display.0) == Some(DisplayInside::Flow),
            r.order == Order(Integer(0)),
            r.visibility == Visibility::Visible,
    {
        Properties { display: Display::inline(), order: Order(Integer(0)), visibility: Visibility::Visible }
    }

    /// Initial values with the given display.
    pub fn with_display(display: Display) -> (r: Properties)
        ensures
            r.display == display,
            r.order == Order(Integer(0)),
            r.visibility == Visibility::Visible,
    {
        Properties { display, order: Order(Integer(0)), visibility: Visibility::Visible }
    }
}

/// Blockification: the outer type becomes `block` and the inner type is
/// kept (`flow` when none is given). Values that generate no box and list
/// items are kept; a layout-internal value becomes `block flow`.
pub open spec fn spec_blockify(d: Display) -> (Option<DisplayOutside>, Option<DisplayInside>) {
    (Some(DisplayOutside::Block), if family_bits(d.0) == 1 || spec_inner(d.0) is None {
        Some(DisplayInside::Flow)
    } else {
        spec_inner(d.0)
    })
}

pub fn blockify(d: Display) -> (r: Display)
    ensures
        family_bits(d.0) == 2 || family_bits(d.0) == 3 ==> r == d,
        family_bits(d.0) == 0 || family_bits(d.0) == 1 ==> (spec_outer(r.0), spec_inner(r.0)) == spec_blockify(d),
{
    let family = d.0 & 3;
    if family == 1 {
        return Display::block();
    }
    if family != 0 {
        return d;
    }
    let mut r = d;
    r.set_outer(DisplayOutside::Block);
    r
}

/// Inlinification: the outer type becomes `inline`; a block box becomes
/// `inline flow-root` so that it stays a block container. Values that
/// generate no box, layout-internal values and list items are kept.
pub fn inlinify(d: Display) -> (r: Display)
    ensures
        family_bits(d.0) != 0 ==> r == d,
        family_bits(d.0) == 0 ==> spec_outer(r.0) == Some(DisplayOutside::Inline) && spec_inner(r.0) == (if spec_outer(
            d.0,
        ) == Some(DisplayOutside::Block) && spec_inner(d.0) == Some(DisplayInside::Flow) {
            Some(DisplayInside::FlowRoot)
        } else if spec_inner(d.0) is None {
            Some(DisplayInside::Flow)
        } else {
            spec_inner(d.0)
        }),
{
    if d.0 & 3 != 0 {
        return d;
    }
    let mut r = d;
    if d.is_block_box() {
        r.set_inner(DisplayInside::FlowRoot);
    }
    r.set_outer(DisplayOutside::Inline);
    r
}

} // verus!
