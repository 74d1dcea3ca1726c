use pb_layout::components::Components;
use pb_layout::display::{Display, DisplayBox, DisplayInside, DisplayInternal, DisplayLegacy, DisplayOutside, DisplayKind};
use pb_layout::style::{blockify, inlinify, LengthUnit, Properties, Visibility};
use pb_layout::text::TextSequence;
use pb_layout::tree::NodeId;

#[test]
fn display_decodes_what_it_encodes() {
    let d = Display::from_parts(DisplayOutside::Inline, DisplayInside::FlowRoot);
    assert_eq!(d.outer(), Some(DisplayOutside::Inline));
    assert_eq!(d.inner(), Some(DisplayInside::FlowRoot));
    assert_eq!(d.kind(), DisplayKind::InsideOutside);
    assert_eq!(Display::block().inner(), Some(DisplayInside::Flow));
    assert!(Display::block().is_block_box());
    assert!(Display::inline().is_inline_box());
    assert_eq!(Display::default(), Display::inline());
    assert_eq!(Display::flex().outer(), None);
    assert_eq!(Display::flex().inner(), Some(DisplayInside::Flex));
    assert_eq!(Display::none().display_box(), Some(DisplayBox::NoBox));
    assert_eq!(Display::contents().display_box(), Some(DisplayBox::Contents));
    assert_eq!(Display::none().outer(), None);
    let cell = DisplayInternal::TableCell.into_display();
    assert_eq!(cell.internal(), Some(DisplayInternal::TableCell));
    assert_eq!(cell.kind(), DisplayKind::Internal);
    assert_eq!(DisplayLegacy::InlineBlock.into_display().inner(), Some(DisplayInside::FlowRoot));
    assert_eq!(DisplayLegacy::InlineGrid.into_display().outer(), Some(DisplayOutside::Inline));
    assert_eq!(DisplayOutside::RunIn.into_u16(), 3);
    assert_eq!(DisplayInside::Table.into_u16(), 6);
    assert_eq!(DisplayBox::Contents.into_u16(), 1);
    assert_eq!(DisplayInternal::RubyTextContainer.into_u16(), 12);
}

#[test]
fn display_setters_replace_one_part() {
    let mut d = Display::block();
    d.set_outer(DisplayOutside::Inline);
    assert_eq!(d.outer(), Some(DisplayOutside::Inline));
    d.set_inner(DisplayInside::Grid);
    assert_eq!(d.inner(), Some(DisplayInside::Grid));
    assert_eq!(d.outer(), Some(DisplayOutside::Inline));
}

#[test]
fn list_items() {
    let li = Display(3 | (1 << 2) | (1 << 4));
    assert_eq!(li.kind(), DisplayKind::Listitem);
    assert_eq!(li.outer(), None);
    assert_eq!(li.inner(), None);
    let item = li.listitem().unwrap();
    assert_eq!(item.outer(), Some(DisplayOutside::Block));
    assert!(Display::block().listitem().is_none());
}

#[test]
fn blockify_and_inlinify() {
    let b = blockify(Display::inline());
    assert_eq!(b.outer(), Some(DisplayOutside::Block));
    assert_eq!(b.inner(), Some(DisplayInside::Flow));
    let ib = blockify(DisplayLegacy::InlineBlock.into_display());
    assert_eq!(ib.inner(), Some(DisplayInside::FlowRoot));
    assert_eq!(ib.outer(), Some(DisplayOutside::Block));
    assert_eq!(blockify(Display::none()), Display::none());
    let cell = blockify(DisplayInternal::TableCell.into_display());
    assert!(cell.is_block_box());
    let i = inlinify(Display::block());
    assert_eq!(i.outer(), Some(DisplayOutside::Inline));
    assert_eq!(i.inner(), Some(DisplayInside::FlowRoot));
    assert_eq!(inlinify(Display::none()), Display::none());
    let cell = DisplayInternal::TableRow.into_display();
    assert_eq!(inlinify(cell), cell);
}

#[test]
fn length_units() {
    assert!(LengthUnit::Em.is_relative());
    assert!(!LengthUnit::Em.is_absolute());
    assert!(LengthUnit::Px.is_absolute());
    assert!(!LengthUnit::Rem.is_relative());
    assert!(!LengthUnit::Rem.is_absolute());
}

#[test]
fn initial_properties() {
    let p = Properties::new();
    assert_eq!(p.display, Display::inline());
    assert_eq!(p.visibility, Visibility::Visible);
    assert_eq!(Visibility::default(), Visibility::Visible);
}

#[test]
fn text_split_by_line_breaks() {
    let t = TextSequence::from_str("a\n\nbc\n");
    let parts: Vec<String> = t.split_by_line_breaks().into_iter().map(|s| s.text).collect();
    assert_eq!(parts, vec!["a".to_string(), "".to_string(), "bc".to_string(), "".to_string()]);
    let one: Vec<String> = TextSequence::from_str("").split_by_line_breaks().into_iter().map(|s| s.text).collect();
    assert_eq!(one, vec!["".to_string()]);
}

#[test]
fn components_bind_share_and_clone() {
    let mut c: Components<u32> = Components::new();
    let a = NodeId(0);
    let b = NodeId(3);
    let d = NodeId(5);
    assert!(!c.is_bound(a));
    c.bind(a, 7);
    assert_eq!(c.borrow(a), Some(&7));
    c.share_from(b, a);
    c.bind(b, 9);
    assert_eq!(c.borrow(a), Some(&9));
    c.clone_component(a, d);
    c.bind(d, 1);
    assert_eq!(c.borrow(a), Some(&9));
    assert_eq!(c.borrow(d), Some(&1));
    c.clone_component(NodeId(8), NodeId(9));
    assert!(!c.is_bound(NodeId(9)));
    c.bind_default(NodeId(9));
    assert_eq!(c.borrow(NodeId(9)), Some(&0));
}
