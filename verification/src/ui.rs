//! Presentation decisions that depend on sizes alone.

use vstd::prelude::*;

verus! {

/// One kibibyte.
pub const KB: u64 = 1024;
/// One mebibyte.
pub const MB: u64 = 1048576;
/// One gibibyte.
pub const GB: u64 = 1073741824;

/// The colour in which a row of the given size is drawn.
#[derive(Clone, Copy, Debug, PartialEq, Eq, Structural)]
pub enum SizeColor {
    Red,
    Yellow,
    LightBlue,
    Green,
    Gray,
}

/// The colour of an entry of `size` bytes: red from 1 GiB, yellow from
/// 100 MiB, light blue from 10 MiB, green from 1 MiB, grey below.
pub open spec fn spec_color_for_size(size: u64) -> SizeColor {
    if size >= GB {
        SizeColor::Red
    } else if size >= 100 * MB {
        SizeColor::Yellow
    } else if size >= 10 * MB {
        SizeColor::LightBlue
    } else if size >= MB {
        SizeColor::Green
    } else {
        SizeColor::Gray
    }
}

pub fn color_for_size(size: u64) -> (c: SizeColor)
    ensures
        c == spec_color_for_size(size),
        size < 1048576 ==> c == SizeColor::Gray,
        1048576 <= size < 10485760 ==> c == SizeColor::Green,
        10485760 <= size < 104857600 ==> c == SizeColor::LightBlue,
        104857600 <= size < 1073741824 ==> c == SizeColor::Yellow,
        1073741824 <= size ==> c == SizeColor::Red,
{
    let ten_mb: u64 = 10 * MB;
    let hundred_mb: u64 = 100 * MB;
    if size >= GB {
        SizeColor::Red
    } else if size >= hundred_mb {
        SizeColor::Yellow
    } else if size >= ten_mb {
        SizeColor::LightBlue
    } else if size >= MB {
        SizeColor::Green
    } else {
        SizeColor::Gray
    }
}

/// How hot a colour is: grey 0, green 1, light blue 2, yellow 3, red 4.
pub open spec fn color_rank(c: SizeColor) -> int {
    match c {
        SizeColor::Gray => 0,
        SizeColor::Green => 1,
        SizeColor::LightBlue => 2,
        SizeColor::Yellow => 3,
        SizeColor::Red => 4,
    }
}

/// A larger entry is never drawn in a cooler colour than a smaller one.
pub proof fn lemma_color_monotone(a: u64, b: u64)
    requires
        a <= b,
    ensures
        color_rank(spec_color_for_size(a)) <= color_rank(spec_color_for_size(b)),
{
}

/// The colour bands, in bytes: grey below 1 MiB, green from 1 MiB below
/// 10 MiB, light blue from 10 MiB below 100 MiB, yellow from 100 MiB below
/// 1 GiB, red from 1 GiB.
pub proof fn lemma_color_bands(size: u64)
    ensures
        size < 1048576 ==> spec_color_for_size(size) == SizeColor::Gray,
        1048576 <= size < 10485760 ==> spec_color_for_size(size) == SizeColor::Green,
        10485760 <= size < 104857600 ==> spec_color_for_size(size) == SizeColor::LightBlue,
        104857600 <= size < 1073741824 ==> spec_color_for_size(size) == SizeColor::Yellow,
        1073741824 <= size ==> spec_color_for_size(size) == SizeColor::Red,
{
}

/// The unit in which a size is written.
#[derive(Clone, Copy, Debug, PartialEq, Eq, Structural)]
pub enum SizeUnit {
    Bytes,
    Kibibytes,
    Mebibytes,
    Gibibytes,
}

/// The number of bytes in one `u`.
pub open spec fn unit_bytes(u: SizeUnit) -> u64 {
    match u {
        SizeUnit::Bytes => 1,
        SizeUnit::Kibibytes => KB,
        SizeUnit::Mebibytes => MB,
        SizeUnit::Gibibytes => GB,
    }
}

/// The largest unit of which `size` holds at least one, up to gibibytes
/// (bytes for 0).
pub open spec fn spec_size_unit(size: u64) -> SizeUnit {
    if size >= GB {
        SizeUnit::Gibibytes
    } else if size >= MB {
        SizeUnit::Mebibytes
    } else if size >= KB {
        SizeUnit::Kibibytes
    } else {
        SizeUnit::Bytes
    }
}

/// The unit in which `size` bytes are written.
pub fn size_unit(size: u64) -> (u: SizeUnit)
    ensures
        u == spec_size_unit(size),
        size < 1024 ==> u == SizeUnit::Bytes,
        1024 <= size < 1048576 ==> u == SizeUnit::Kibibytes,
        1048576 <= size < 1073741824 ==> u == SizeUnit::Mebibytes,
        1073741824 <= size ==> u == SizeUnit::Gibibytes,
        size >= 1 ==> unit_bytes(u) <= size,
        u != SizeUnit::Gibibytes ==> size < 1024 * unit_bytes(u),
{
    if size >= GB {
        SizeUnit::Gibibytes
    } else if size >= MB {
        SizeUnit::Mebibytes
    } else if size >= KB {
        SizeUnit::Kibibytes
    } else {
        SizeUnit::Bytes
    }
}

/// The unit of a size, in bytes: bytes below 1024, kibibytes below
/// 1048576, mebibytes below 1073741824, gibibytes from there.
pub proof fn lemma_unit_bands(size: u64)
    ensures
        size < 1024 ==> spec_size_unit(size) == SizeUnit::Bytes,
        1024 <= size < 1048576 ==> spec_size_unit(size) == SizeUnit::Kibibytes,
        1048576 <= size < 1073741824 ==> spec_size_unit(size) == SizeUnit::Mebibytes,
        1073741824 <= size ==> spec_size_unit(size) == SizeUnit::Gibibytes,
{
}

/// Where a popup is drawn: its top-left corner and its size.
#[derive(Clone, Copy, Debug, PartialEq, Eq, Structural)]
pub struct PopupArea {
    pub x: u16,
    pub y: u16,
    pub width: u16,
    pub height: u16,
}

/// `a - b`, or 0.
pub open spec fn sub_or_zero(a: u16, b: u16) -> u16 {
    if a < b {
        0
    } else {
        (a - b) as u16
    }
}

/// The smaller of `a` and `b`.
pub open spec fn min16(a: u16, b: u16) -> u16 {
    if a < b {
        a
    } else {
        b
    }
}

/// A popup of `width` by `height` centred in an area of `area_width` by
/// `area_height`, cut to the area.
pub fn centered_popup(area_width: u16, area_height: u16, width: u16, height: u16) -> (p: PopupArea)
    ensures
        p.x + p.width <= area_width,
        p.y + p.height <= area_height,
        width <= area_width ==> p.width == width && (p.x == (area_width - width) / 2),
        height <= area_height ==> p.height == height && (p.y == (area_height - height) / 2),
        p.x == sub_or_zero(area_width, width) / 2,
        p.y == sub_or_zero(area_height, height) / 2,
        p.width == min16(width, area_width),
        p.height == min16(height, area_height),
{
    PopupArea {
        x: area_width.saturating_sub(width) / 2,
        y: area_height.saturating_sub(height) / 2,
        width: if width < area_width { width } else { area_width },
        height: if height < area_height { height } else { area_height },
    }
}

/// The size of the help popup: 78 by 28, but at most the area less 2 each
/// way.
pub fn help_popup_size(area_width: u16, area_height: u16) -> (r: (u16, u16))
    ensures
        r.0 == min16(78, sub_or_zero(area_width, 2)),
        r.1 == min16(28, sub_or_zero(area_height, 2)),
        r.0 <= 78 && r.1 <= 28,
        area_width >= 80 ==> r.0 == 78,
        area_height >= 30 ==> r.1 == 28,
        area_width < 80 ==> r.0 + 2 == area_width || (area_width < 2 && r.0 == 0),
        area_height < 30 ==> r.1 + 2 == area_height || (area_height < 2 && r.1 == 0),
{
    let w = area_width.saturating_sub(2);
    let h = area_height.saturating_sub(2);
    (if 78 < w { 78 } else { w }, if 28 < h { 28 } else { h })
}

/// How far the help text of `total_lines` lines scrolls in a popup
/// `popup_height` high (its border takes two lines).
pub fn help_max_scroll(total_lines: u16, popup_height: u16) -> (m: u16)
    ensures
        m == sub_or_zero(total_lines, sub_or_zero(popup_height, 2)),
        popup_height >= 2 && total_lines >= popup_height - 2 ==> m == total_lines - (popup_height - 2),
        popup_height >= 2 && total_lines < popup_height - 2 ==> m == 0,
        popup_height < 2 ==> m == total_lines,
{
    total_lines.saturating_sub(popup_height.saturating_sub(2))
}

/// The position shown in the help title, counting from 1: the offset and
/// the last offset; none when the text does not scroll.
pub fn help_position(scroll: u16, max_scroll: u16) -> (r: Option<(u32, u32)>)
    ensures
        max_scroll == 0 ==> r is None,
        max_scroll != 0 ==> r == Some(((scroll + 1) as u32, (max_scroll + 1) as u32)),
{
    if max_scroll == 0 {
        None
    } else {
        Some((scroll as u32 + 1, max_scroll as u32 + 1))
    }
}

} // verus!
