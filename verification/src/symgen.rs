//! Schematic-symbol support: pin classification by name, pin placement around a
//! rectangular body, reference-prefix inference, and `sym-lib-table` text.
use vstd::prelude::*;
use crate::text::{
    append_str, chars_of, contains, eq_str, seq_contains, seq_starts_with, spec_to_uppercase,
    starts_with, string_from_chars, upper_chars,
};

verus! {

/// Side of the symbol body a pin is drawn on.
#[derive(Debug, Clone, Copy, PartialEq, Eq, Structural)]
pub enum PinClass {
    /// Supply pins, along the top edge.
    PowerTop,
    /// Ground pins, along the bottom edge.
    PowerBottom,
    /// Inputs, along the left edge.
    Left,
    /// Outputs, along the right edge.
    Right,
}

/// Electrical type of a pin, as inferred from its name.
#[derive(Debug, Clone, Copy, PartialEq, Eq, Structural)]
pub enum ElectricalType {
    PowerIn,
    Output,
    Input,
    Bidirectional,
    NoConnect,
    Passive,
}

/// An upper-case pin name that denotes ground.
pub open spec fn ground_upper(u: Seq<char>) -> bool {
    ||| u == "GND"@
    ||| u == "VSS"@
    ||| u == "DGND"@
    ||| u == "AGND"@
    ||| u == "PGND"@
    ||| u == "SGND"@
    ||| seq_starts_with(u, "GND"@)
    ||| seq_contains(u, "GROUND"@)
}

/// An upper-case pin name that denotes a supply.
pub open spec fn supply_upper(u: Seq<char>) -> bool {
    ||| u == "VCC"@
    ||| u == "VDD"@
    ||| u == "VCCD"@
    ||| u == "VCCA"@
    ||| u == "VIN"@
    ||| u == "VOUT"@
    ||| u == "AVDD"@
    ||| u == "DVDD"@
    ||| u == "VCCIO"@
    ||| u == "VREF"@
    ||| u == "VBAT"@
    ||| u == "VDDA"@
    ||| u == "VDDD"@
    ||| u == "VREG"@
    ||| seq_starts_with(u, "VDD"@)
    ||| seq_starts_with(u, "VCC"@)
    ||| u == "VBUS"@
    ||| u == "VUSB"@
}

/// Whether an upper-case pin name denotes ground.
pub fn ground_name_upper(u: &[char]) -> (b: bool)
    ensures
        b == ground_upper(u@),
{
    eq_str(u, "GND") || eq_str(u, "VSS") || eq_str(u, "DGND") || eq_str(u, "AGND") || eq_str(
        u,
        "PGND",
    ) || eq_str(u, "SGND") || starts_with(u, "GND") || contains(u, "GROUND")
}

/// Whether an upper-case pin name denotes a supply.
pub fn supply_name_upper(u: &[char]) -> (b: bool)
    ensures
        b == supply_upper(u@),
{
    eq_str(u, "VCC") || eq_str(u, "VDD") || eq_str(u, "VCCD") || eq_str(u, "VCCA") || eq_str(
        u,
        "VIN",
    ) || eq_str(u, "VOUT") || eq_str(u, "AVDD") || eq_str(u, "DVDD") || eq_str(u, "VCCIO")
        || eq_str(u, "VREF") || eq_str(u, "VBAT") || eq_str(u, "VDDA") || eq_str(u, "VDDD")
        || eq_str(u, "VREG") || starts_with(u, "VDD") || starts_with(u, "VCC") || eq_str(u, "VBUS")
        || eq_str(u, "VUSB")
}

/// Whether a pin name denotes ground (compared in upper case).
pub fn is_ground_pin(name: &str) -> (b: bool)
    ensures
        b == ground_upper(spec_to_uppercase(name@)),
{
    let u = upper_chars(name);
    ground_name_upper(u.as_slice())
}

/// Whether a pin name denotes a supply (compared in upper case).
pub fn is_supply_pin(name: &str) -> (b: bool)
    ensures
        b == supply_upper(spec_to_uppercase(name@)),
{
    let u = upper_chars(name);
    supply_name_upper(u.as_slice())
}

/// The electrical type text of a pin: the given one, or `passive` when there is none.
pub open spec fn etype_or_passive(etype: Option<Seq<char>>) -> Seq<char> {
    match etype {
        Some(e) => e,
        None => "passive"@,
    }
}

/// Side of a pin. `upper` is the pin name in upper case and `upper2` is `upper` in
/// upper case again (the ground and supply tests upper-case what they are given).
pub open spec fn pin_class_spec(upper: Seq<char>, upper2: Seq<char>, etype: Option<Seq<char>>) -> PinClass {
    let e = etype_or_passive(etype);
    if ground_upper(upper2) {
        PinClass::PowerBottom
    } else if supply_upper(upper2) {
        PinClass::PowerTop
    } else if e == "output"@ || e == "open_collector"@ || e == "open_emitter"@ || e
        == "power_out"@ {
        PinClass::Right
    } else if e == "input"@ || e == "clock"@ {
        PinClass::Left
    } else if seq_starts_with(upper, "OUT"@) || seq_starts_with(upper, "SW"@) || seq_starts_with(
        upper,
        "TX"@,
    ) || seq_starts_with(upper, "DRV"@) {
        PinClass::Right
    } else {
        PinClass::Left
    }
}

/// The view of an optional string.
pub open spec fn opt_view(o: Option<&str>) -> Option<Seq<char>> {
    match o {
        Some(s) => Some(s@),
        None => None,
    }
}

/// Side of a pin, from its name in upper case (`upper`) and upper-cased again (`upper2`).
pub fn pin_class_upper(upper: &[char], upper2: &[char], etype: Option<&str>) -> (c: PinClass)
    ensures
        c == pin_class_spec(upper@, upper2@, opt_view(etype)),
{
    if ground_name_upper(upper2) {
        return PinClass::PowerBottom;
    }
    if supply_name_upper(upper2) {
        return PinClass::PowerTop;
    }
    let e: &str = match etype {
        Some(e) => e,
        None => "passive",
    };
    let ec = chars_of(e);
    let ev = ec.as_slice();
    if eq_str(ev, "output") || eq_str(ev, "open_collector") || eq_str(ev, "open_emitter") || eq_str(
        ev,
        "power_out",
    ) {
        PinClass::Right
    } else if eq_str(ev, "input") || eq_str(ev, "clock") {
        PinClass::Left
    } else if starts_with(upper, "OUT") || starts_with(upper, "SW") || starts_with(upper, "TX")
        || starts_with(upper, "DRV") {
        PinClass::Right
    } else {
        PinClass::Left
    }
}

/// Side of a pin from its name and optional electrical type: ground pins go to the
/// bottom, supply pins to the top, outputs to the right and everything else to the left.
pub fn classify_pin(name: &str, etype: Option<&str>) -> (c: PinClass)
    ensures
        c == pin_class_spec(
            spec_to_uppercase(name@),
            spec_to_uppercase(spec_to_uppercase(name@)),
            opt_view(etype),
        ),
{
    let u = crate::text::to_upper(name);
    let u1 = chars_of(u.as_str());
    let u2 = upper_chars(u.as_str());
    pin_class_upper(u1.as_slice(), u2.as_slice(), etype)
}

/// Reference-designator prefix for an MPN in upper case.
pub open spec fn ref_prefix_spec(u: Seq<char>) -> Seq<char> {
    if seq_starts_with(u, "R"@) && !seq_starts_with(u, "RT"@) && !seq_starts_with(u, "REG"@) {
        "R"@
    } else if seq_starts_with(u, "C"@) && !seq_starts_with(u, "CON"@) && !seq_starts_with(
        u,
        "74"@,
    ) {
        "C"@
    } else if seq_starts_with(u, "L"@) && !seq_starts_with(u, "LED"@) && !seq_starts_with(
        u,
        "LM"@,
    ) {
        "L"@
    } else if seq_starts_with(u, "LED"@) {
        "D"@
    } else if seq_starts_with(u, "D"@) && !seq_starts_with(u, "DIP"@) {
        "D"@
    } else {
        "U"@
    }
}

/// Reference-designator prefix for an MPN given in upper case.
pub fn ref_prefix_upper(u: &[char]) -> (r: String)
    ensures
        r@ == ref_prefix_spec(u@),
{
    let p: &str = if starts_with(u, "R") && !starts_with(u, "RT") && !starts_with(u, "REG") {
        "R"
    } else if starts_with(u, "C") && !starts_with(u, "CON") && !starts_with(u, "74") {
        "C"
    } else if starts_with(u, "L") && !starts_with(u, "LED") && !starts_with(u, "LM") {
        "L"
    } else if starts_with(u, "LED") {
        "D"
    } else if starts_with(u, "D") && !starts_with(u, "DIP") {
        "D"
    } else {
        "U"
    };
    let pc = chars_of(p);
    string_from_chars(pc.as_slice())
}

/// Reference-designator prefix (`R`, `C`, `L`, `D` or `U`) guessed from an MPN.
pub fn infer_ref_prefix(mpn: &str) -> (r: String)
    ensures
        r@ == ref_prefix_spec(spec_to_uppercase(mpn@)),
{
    let u = upper_chars(mpn);
    ref_prefix_upper(u.as_slice())
}

/// Electrical type of a pin whose name, in upper case, is `u`.
pub open spec fn etype_from_upper_spec(u: Seq<char>) -> ElectricalType {
    if seq_starts_with(u, "VCC"@) || seq_starts_with(u, "VDD"@) || seq_starts_with(u, "VIN"@)
        || u == "V+"@ || u == "AVCC"@ || u == "DVCC"@ || u == "VREF"@ || seq_starts_with(
        u,
        "3V"@,
    ) || seq_starts_with(u, "5V"@) || seq_starts_with(u, "1V"@) {
        ElectricalType::PowerIn
    } else if u == "GND"@ || u == "VSS"@ || u == "AGND"@ || u == "DGND"@ || u == "PGND"@ || u
        == "SGND"@ || u == "EP"@ || u == "PAD"@ {
        ElectricalType::PowerIn
    } else if seq_starts_with(u, "TX"@) || seq_starts_with(u, "MOSI"@) || seq_starts_with(
        u,
        "SDO"@,
    ) || seq_starts_with(u, "SCL"@) {
        ElectricalType::Output
    } else if seq_starts_with(u, "RX"@) || seq_starts_with(u, "MISO"@) || seq_starts_with(
        u,
        "SDI"@,
    ) {
        ElectricalType::Input
    } else if seq_starts_with(u, "GPIO"@) || seq_starts_with(u, "IO"@) || seq_starts_with(
        u,
        "SDA"@,
    ) {
        ElectricalType::Bidirectional
    } else if u == "NC"@ || u == "N/C"@ || u == "DNC"@ {
        ElectricalType::NoConnect
    } else {
        ElectricalType::Passive
    }
}

/// Electrical type of a pin whose name is given in upper case.
pub fn electrical_type_from_upper(u: &[char]) -> (t: ElectricalType)
    ensures
        t == etype_from_upper_spec(u@),
{
    if starts_with(u, "VCC") || starts_with(u, "VDD") || starts_with(u, "VIN") || eq_str(u, "V+")
        || eq_str(u, "AVCC") || eq_str(u, "DVCC") || eq_str(u, "VREF") || starts_with(u, "3V")
        || starts_with(u, "5V") || starts_with(u, "1V") {
        ElectricalType::PowerIn
    } else if eq_str(u, "GND") || eq_str(u, "VSS") || eq_str(u, "AGND") || eq_str(u, "DGND")
        || eq_str(u, "PGND") || eq_str(u, "SGND") || eq_str(u, "EP") || eq_str(u, "PAD") {
        ElectricalType::PowerIn
    } else if starts_with(u, "TX") || starts_with(u, "MOSI") || starts_with(u, "SDO")
        || starts_with(u, "SCL") {
        ElectricalType::Output
    } else if starts_with(u, "RX") || starts_with(u, "MISO") || starts_with(u, "SDI") {
        ElectricalType::Input
    } else if starts_with(u, "GPIO") || starts_with(u, "IO") || starts_with(u, "SDA") {
        ElectricalType::Bidirectional
    } else if eq_str(u, "NC") || eq_str(u, "N/C") || eq_str(u, "DNC") {
        ElectricalType::NoConnect
    } else {
        ElectricalType::Passive
    }
}

/// Electrical type of a pin that has none recorded, guessed from its name.
pub fn infer_electrical_type_from_name(pin_name: &str) -> (t: ElectricalType)
    ensures
        t == etype_from_upper_spec(spec_to_uppercase(pin_name@)),
{
    let u = upper_chars(pin_name);
    electrical_type_from_upper(u.as_slice())
}

/// One `sym-lib-table` entry line for a library.
pub open spec fn lib_table_entry_text(name: Seq<char>, path: Seq<char>) -> Seq<char> {
    "(lib (name \""@ + name + "\")(type \"KiCad\")(uri \""@ + path
        + "\")(options \"\")(descr \"\"))\n"@
}

/// The entry lines of a list of (name, path) pairs, in order.
pub open spec fn lib_table_entries_text(libs: Seq<(&str, &str)>) -> Seq<char>
    decreases libs.len(),
{
    if libs.len() == 0 {
        Seq::empty()
    } else {
        lib_table_entries_text(libs.drop_last()) + lib_table_entry_text(
            libs.last().0@,
            libs.last().1@,
        )
    }
}

/// A whole `sym-lib-table` file for a list of (name, path) pairs.
pub open spec fn sym_lib_table_text(libs: Seq<(&str, &str)>) -> Seq<char> {
    "(sym_lib_table\n"@ + lib_table_entries_text(libs) + ")\n"@
}

fn push_lib_table_entry(out: &mut Vec<char>, lib_name: &str, lib_path: &str)
    ensures
        final(out)@ == old(out)@ + lib_table_entry_text(lib_name@, lib_path@),
{
    append_str(out, "(lib (name \"");
    append_str(out, lib_name);
    append_str(out, "\")(type \"KiCad\")(uri \"");
    append_str(out, lib_path);
    append_str(out, "\")(options \"\")(descr \"\"))\n");
}

/// A `sym-lib-table` entry line: the library's logical name and the URI of its
/// `.kicad_sym` file.
pub fn generate_lib_table_entry(lib_name: &str, lib_path: &str) -> (r: String)
    ensures
        r@ == lib_table_entry_text(lib_name@, lib_path@),
{
    let mut out: Vec<char> = Vec::new();
    push_lib_table_entry(&mut out, lib_name, lib_path);
    proof {
        assert(out@ =~= lib_table_entry_text(lib_name@, lib_path@));
    }
    string_from_chars(out.as_slice())
}

/// A complete `sym-lib-table` file listing the given (name, path) pairs in order.
pub fn generate_sym_lib_table(libs: &[(&str, &str)]) -> (r: String)
    ensures
        r@ == sym_lib_table_text(libs@),
{
    let mut out: Vec<char> = chars_of("(sym_lib_table\n");
    let mut i: usize = 0;
    while i < libs.len()
        invariant
            i <= libs@.len(),
            out@ == "(sym_lib_table\n"@ + lib_table_entries_text(libs@.subrange(0, i as int)),
        decreases libs@.len() - i,
    {
        let (name, path) = libs[i];
        push_lib_table_entry(&mut out, name, path);
        proof {
            let pre = libs@.subrange(0, i as int + 1);
            assert(pre.drop_last() =~= libs@.subrange(0, i as int));
            assert(pre.last() == libs@[i as int]);
        }
        i = i + 1;
    }
    append_str(&mut out, ")\n");
    proof {
        assert(libs@.subrange(0, libs@.len() as int) =~= libs@);
    }
    string_from_chars(out.as_slice())
}

/// A pin placed on the symbol. Coordinates are in units of 1.27 mm (half the pin
/// pitch), the body centred on the origin; the rotation is in degrees.
#[derive(Debug, Clone, Copy, PartialEq, Eq, Structural)]
pub struct LayoutPin {
    pub index: usize,
    pub x: i64,
    pub y: i64,
    pub rotation: u32,
}

/// Body size (in units of 1.27 mm) and placed pins of a symbol.
pub struct LayoutResult {
    pub body_width: i64,
    pub body_height: i64,
    pub pins: Vec<LayoutPin>,
}

/// Indices `i` with `c[i] == k`, ascending.
pub open spec fn class_indices(c: Seq<PinClass>, k: PinClass) -> Seq<usize>
    decreases c.len(),
{
    if c.len() == 0 {
        Seq::empty()
    } else if c.last() == k {
        class_indices(c.drop_last(), k).push((c.len() - 1) as usize)
    } else {
        class_indices(c.drop_last(), k)
    }
}

/// The indices `a`, `a + 1`, ..., `b - 1`.
pub open spec fn index_range(a: int, b: int) -> Seq<usize> {
    Seq::new((b - a) as nat, |i: int| (a + i) as usize)
}

/// Pins on the (left, right, top, bottom) sides. When no pin is on the left or the
/// right, the pins are split in two halves, first half left; when all pins are on the
/// left, the second half of them moves to the right.
pub open spec fn layout_sides(c: Seq<PinClass>) -> (Seq<usize>, Seq<usize>, Seq<usize>, Seq<usize>) {
    let l = class_indices(c, PinClass::Left);
    let r = class_indices(c, PinClass::Right);
    let t = class_indices(c, PinClass::PowerTop);
    let b = class_indices(c, PinClass::PowerBottom);
    if l.len() == 0 && r.len() == 0 {
        let h = (c.len() / 2) as int;
        (index_range(0, h), index_range(h, c.len() as int), Seq::empty(), Seq::empty())
    } else if r.len() == 0 && t.len() == 0 && b.len() == 0 {
        let h = (l.len() / 2) as int;
        (l.take(h), l.skip(h), Seq::empty(), Seq::empty())
    } else {
        (l, r, t, b)
    }
}

/// Pins per side of the taller side, at least one.
pub open spec fn layout_max_side(c: Seq<PinClass>) -> int {
    let s = layout_sides(c);
    let m = if s.0.len() >= s.1.len() { s.0.len() } else { s.1.len() };
    if m >= 1 { m as int } else { 1 }
}

/// Pins along a vertical side: the `j`-th from the top at height `m - 2j`.
pub open spec fn column_pins(idx: Seq<usize>, x: int, m: int, rot: u32) -> Seq<LayoutPin> {
    Seq::new(idx.len(), |j: int| LayoutPin { index: idx[j], x: x as i64, y: (m - 2 * j) as i64, rotation: rot })
}

/// Pins along a horizontal side, centred, left to right, two units apart.
pub open spec fn row_pins(idx: Seq<usize>, y: int, rot: u32) -> Seq<LayoutPin> {
    Seq::new(idx.len(), |j: int| LayoutPin { index: idx[j], x: (2 * j - (idx.len() - 1)) as i64, y: y as i64, rotation: rot })
}

/// Placed pins of a symbol whose pins have the classes `c`: left pins, then right,
/// top and bottom ones.
pub open spec fn layout_pins_spec(c: Seq<PinClass>) -> Seq<LayoutPin> {
    let s = layout_sides(c);
    let m = layout_max_side(c);
    column_pins(s.0, -4, m, 0) + column_pins(s.1, 4, m, 180) + row_pins(s.2, m + 2, 90)
        + row_pins(s.3, -(m + 2), 270)
}

/// Indices of pins with class `k`.
fn collect_class(c: &[PinClass], k: PinClass) -> (v: Vec<usize>)
    ensures
        v@ == class_indices(c@, k),
{
    let mut v: Vec<usize> = Vec::new();
    let mut i: usize = 0;
    while i < c.len()
        invariant
            i <= c@.len(),
            v@ == class_indices(c@.subrange(0, i as int), k),
        decreases c@.len() - i,
    {
        proof {
            let pre = c@.subrange(0, i as int + 1);
            assert(pre.drop_last() =~= c@.subrange(0, i as int));
        }
        if c[i] == k {
            v.push(i);
        }
        i = i + 1;
    }
    proof {
        assert(c@.subrange(0, c@.len() as int) =~= c@);
    }
    v
}

/// Every index that `class_indices` lists is below the length.
proof fn lemma_class_indices_bound(c: Seq<PinClass>, k: PinClass)
    ensures
        forall|j: int| 0 <= j < class_indices(c, k).len() ==> class_indices(c, k)[j] < c.len(),
        class_indices(c, k).len() <= c.len(),
    decreases c.len(),
{
    if c.len() > 0 {
        lemma_class_indices_bound(c.drop_last(), k);
    }
}

/// The indices `a .. b`.
fn range_vec(a: usize, b: usize) -> (v: Vec<usize>)
    requires
        a <= b,
    ensures
        v@ == index_range(a as int, b as int),
{
    let mut v: Vec<usize> = Vec::new();
    let mut i: usize = a;
    while i < b
        invariant
            a <= i <= b,
            v@ == index_range(a as int, i as int),
        decreases b - i,
    {
        v.push(i);
        i = i + 1;
        proof {
            assert(v@ =~= index_range(a as int, i as int));
        }
    }
    v
}

/// Append the pins of one vertical side.
fn push_column(out: &mut Vec<LayoutPin>, idx: &[usize], x: i64, m: i64, rot: u32)
    requires
        0 <= m < 0x4000_0000_0000_0000,
        idx@.len() <= m,
    ensures
        final(out)@ == old(out)@ + column_pins(idx@, x as int, m as int, rot),
{
    let ghost o = out@;
    let mut j: usize = 0;
    while j < idx.len()
        invariant
            j <= idx@.len(),
            idx@.len() <= m < 0x4000_0000_0000_0000,
            out@ == o + column_pins(idx@, x as int, m as int, rot).take(j as int),
        decreases idx@.len() - j,
    {
        let y: i64 = m - 2 * (j as i64);
        out.push(LayoutPin { index: idx[j], x, y, rotation: rot });
        j = j + 1;
        proof {
            assert(out@ =~= o + column_pins(idx@, x as int, m as int, rot).take(j as int));
        }
    }
    proof {
        assert(column_pins(idx@, x as int, m as int, rot).take(idx@.len() as int) =~= column_pins(idx@, x as int, m as int, rot));
    }
}

/// Append the pins of one horizontal side.
fn push_row(out: &mut Vec<LayoutPin>, idx: &[usize], y: i64, rot: u32)
    requires
        idx@.len() < 0x4000_0000_0000_0000,
    ensures
        final(out)@ == old(out)@ + row_pins(idx@, y as int, rot),
{
    let ghost o = out@;
    let n: i64 = idx.len() as i64;
    let mut j: usize = 0;
    while j < idx.len()
        invariant
            j <= idx@.len(),
            n == idx@.len(),
            idx@.len() < 0x4000_0000_0000_0000,
            out@ == o + row_pins(idx@, y as int, rot).take(j as int),
        decreases idx@.len() - j,
    {
        let x: i64 = 2 * (j as i64) - (n - 1);
        out.push(LayoutPin { index: idx[j], x, y, rotation: rot });
        j = j + 1;
        proof {
            assert(out@ =~= o + row_pins(idx@, y as int, rot).take(j as int));
        }
    }
    proof {
        assert(row_pins(idx@, y as int, rot).take(idx@.len() as int) =~= row_pins(idx@, y as int, rot));
    }
}

/// Pin placement for a symbol whose pins have the given classes, in the order of the
/// classes: supply pins along the top, ground along the bottom, the rest in two columns.
pub fn layout_from_classes(c: &[PinClass]) -> (r: LayoutResult)
    requires
        c@.len() < 0x4000_0000_0000_0000,
    ensures
        r.body_width == 4,
        r.body_height == 2 * layout_max_side(c@),
        r.pins@ == layout_pins_spec(c@),
{
    let mut left = collect_class(c, PinClass::Left);
    let mut right = collect_class(c, PinClass::Right);
    let mut top = collect_class(c, PinClass::PowerTop);
    let mut bottom = collect_class(c, PinClass::PowerBottom);
    proof {
        lemma_class_indices_bound(c@, PinClass::Left);
        lemma_class_indices_bound(c@, PinClass::Right);
        lemma_class_indices_bound(c@, PinClass::PowerTop);
        lemma_class_indices_bound(c@, PinClass::PowerBottom);
    }
    if left.len() == 0 && right.len() == 0 {
        let half = c.len() / 2;
        left = range_vec(0, half);
        right = range_vec(half, c.len());
        top = Vec::new();
        bottom = Vec::new();
    } else if right.len() == 0 && top.len() == 0 && bottom.len() == 0 {
        let half = left.len() / 2;
        let tail = left.split_off(half);
        right = tail;
    }
    let ghost sides = layout_sides(c@);
    assert(left@ == sides.0 && right@ == sides.1 && top@ == sides.2 && bottom@ == sides.3);
    let mut m: usize = if left.len() >= right.len() { left.len() } else { right.len() };
    if m < 1 {
        m = 1;
    }
    let mi: i64 = m as i64;
    let mut pins: Vec<LayoutPin> = Vec::new();
    push_column(&mut pins, left.as_slice(), -4, mi, 0);
    push_column(&mut pins, right.as_slice(), 4, mi, 180);
    push_row(&mut pins, top.as_slice(), mi + 2, 90);
    push_row(&mut pins, bottom.as_slice(), -(mi + 2), 270);
    LayoutResult { body_width: 4, body_height: 2 * mi, pins }
}

/// An input pin of a symbol: its name and, when recorded, its electrical type.
pub struct SymbolPinInfo {
    pub pin_name: String,
    pub electrical_type: Option<String>,
}

/// The view of an optional string.
pub open spec fn opt_string_view(o: Option<String>) -> Option<Seq<char>> {
    match o {
        Some(s) => Some(s@),
        None => None,
    }
}

/// The class of each pin.
pub open spec fn pin_classes_spec(pins: Seq<SymbolPinInfo>) -> Seq<PinClass> {
    Seq::new(pins.len(), |i: int| pin_class_spec(
        spec_to_uppercase(pins[i].pin_name@),
        spec_to_uppercase(spec_to_uppercase(pins[i].pin_name@)),
        opt_string_view(pins[i].electrical_type),
    ))
}

/// Pin placement for a symbol: each pin is classified by `classify_pin` and placed by
/// `layout_from_classes`.
pub fn compute_layout(pins: &[SymbolPinInfo]) -> (r: LayoutResult)
    requires
        pins@.len() < 0x4000_0000_0000_0000,
    ensures
        r.body_width == 4,
        r.body_height == 2 * layout_max_side(pin_classes_spec(pins@)),
        r.pins@ == layout_pins_spec(pin_classes_spec(pins@)),
{
    let mut classes: Vec<PinClass> = Vec::new();
    let mut i: usize = 0;
    while i < pins.len()
        invariant
            i <= pins@.len(),
            classes@ == pin_classes_spec(pins@).take(i as int),
        decreases pins@.len() - i,
    {
        let et: Option<&str> = match &pins[i].electrical_type {
            Some(e) => Some(e.as_str()),
            None => None,
        };
        let k = classify_pin(pins[i].pin_name.as_str(), et);
        classes.push(k);
        i = i + 1;
        proof {
            assert(classes@ =~= pin_classes_spec(pins@).take(i as int));
        }
    }
    proof {
        assert(classes@ =~= pin_classes_spec(pins@));
    }
    layout_from_classes(classes.as_slice())
}

/// `class_indices` lists, in strictly ascending order, exactly the pins of the class.
proof fn lemma_class_indices_exact(c: Seq<PinClass>, k: PinClass)
    requires
        c.len() <= usize::MAX,
    ensures
        forall|j: int| 0 <= j < class_indices(c, k).len() ==> (#[trigger] class_indices(c, k)[j]) < c.len()
            && c[class_indices(c, k)[j] as int] == k,
        forall|j: int, m: int| 0 <= j < m < class_indices(c, k).len() ==> #[trigger] class_indices(c, k)[j] < #[trigger] class_indices(c, k)[m],
        forall|i: int| 0 <= i < c.len() && c[i] == k ==> class_indices(c, k).contains(i as usize),
    decreases c.len(),
{
    if c.len() > 0 {
        let d = c.drop_last();
        lemma_class_indices_exact(d, k);
        let q = class_indices(d, k);
        let full = class_indices(c, k);
        assert forall|j: int| 0 <= j < q.len() implies c[q[j] as int] == k by {
            assert(c[q[j] as int] == d[q[j] as int]);
        }
        if c.last() == k {
            assert(full == q.push((c.len() - 1) as usize));
            assert forall|j: int, m: int| 0 <= j < m < full.len() implies #[trigger] full[j] < #[trigger] full[m] by {
                if m < q.len() {
                    assert(full[j] == q[j] && full[m] == q[m]);
                } else {
                    assert(full[j] == q[j]);
                }
            }
        } else {
            assert(full == q);
        }
        assert forall|i: int| 0 <= i < c.len() && c[i] == k implies full.contains(i as usize) by {
            if i < c.len() - 1 {
                assert(d[i] == c[i]);
                assert(q.contains(i as usize));
                let j = choose|j: int| 0 <= j < q.len() && q[j] == i as usize;
                assert(full[j] == q[j]);
            } else {
                assert(full[full.len() - 1] == i as usize);
            }
        }
    }
}

/// The pin indices of a list of placed pins.
pub open spec fn placed_indices(p: Seq<LayoutPin>) -> Seq<usize> {
    p.map_values(|q: LayoutPin| q.index)
}

/// The pin indices of the four sides, left, right, top, bottom.
pub open spec fn side_indices(c: Seq<PinClass>) -> Seq<usize> {
    let s = layout_sides(c);
    s.0 + s.1 + s.2 + s.3
}

/// The placed pins carry the side indices in order.
proof fn lemma_placed_are_sides(c: Seq<PinClass>)
    ensures
        placed_indices(layout_pins_spec(c)) == side_indices(c),
{
    let sides = layout_sides(c);
    let m = layout_max_side(c);
    let idx = side_indices(c);
    let p = layout_pins_spec(c);
    let a = column_pins(sides.0, -4, m, 0);
    let b = column_pins(sides.1, 4, m, 180);
    let t = row_pins(sides.2, m + 2, 90);
    let u = row_pins(sides.3, -(m + 2), 270);
    assert(p == a + b + t + u);
    assert forall|k: int| 0 <= k < idx.len() implies placed_indices(p)[k] == idx[k] by {
        if k < a.len() {
            assert(p[k] == a[k]);
        } else if k < a.len() + b.len() {
            assert(p[k] == b[k - a.len()]);
        } else if k < a.len() + b.len() + t.len() {
            assert(p[k] == t[k - a.len() - b.len()]);
        } else {
            assert(p[k] == u[k - a.len() - b.len() - t.len()]);
        }
    }
    assert(placed_indices(p) =~= idx);
}

/// A strictly ascending sequence of pin indices of one class.
pub open spec fn class_run(q: Seq<usize>, c: Seq<PinClass>, k: PinClass) -> bool {
    &&& forall|j: int| 0 <= j < q.len() ==> (#[trigger] q[j]) < c.len() && c[q[j] as int] == k
    &&& q.no_duplicates()
}

proof fn lemma_class_run(c: Seq<PinClass>, k: PinClass)
    requires
        c.len() <= usize::MAX,
    ensures
        class_run(class_indices(c, k), c, k),
{
    lemma_class_indices_exact(c, k);
    let q = class_indices(c, k);
    assert forall|i: int, j: int| 0 <= i < q.len() && 0 <= j < q.len() && i != j implies q[i] != q[j] by {
        if i < j {
            assert(q[i] < q[j]);
        } else {
            assert(q[j] < q[i]);
        }
    }
}

/// The side indices list every pin exactly once.
proof fn lemma_side_indices(c: Seq<PinClass>)
    requires
        c.len() <= usize::MAX,
    ensures
        side_indices(c).no_duplicates(),
        forall|k: int| 0 <= k < side_indices(c).len() ==> (#[trigger] side_indices(c)[k]) < c.len(),
        forall|i: usize| i < c.len() ==> #[trigger] side_indices(c).contains(i),
{
    let l = class_indices(c, PinClass::Left);
    let r = class_indices(c, PinClass::Right);
    let tp = class_indices(c, PinClass::PowerTop);
    let bt = class_indices(c, PinClass::PowerBottom);
    lemma_class_indices_exact(c, PinClass::Left);
    lemma_class_indices_exact(c, PinClass::Right);
    lemma_class_indices_exact(c, PinClass::PowerTop);
    lemma_class_indices_exact(c, PinClass::PowerBottom);
    let idx = side_indices(c);
    if l.len() == 0 && r.len() == 0 {
        assert(idx =~= index_range(0, c.len() as int));
        assert forall|i: usize| i < c.len() implies #[trigger] idx.contains(i) by {
            assert(idx[i as int] == i);
        }
    } else if r.len() == 0 && tp.len() == 0 && bt.len() == 0 {
        assert(idx =~= l);
        lemma_class_run(c, PinClass::Left);
        assert forall|i: usize| i < c.len() implies #[trigger] idx.contains(i) by {
            let ii = i as int;
            if c[ii] == PinClass::Right {
                assert(r.contains(ii as usize));
            } else if c[ii] == PinClass::PowerTop {
                assert(tp.contains(ii as usize));
            } else if c[ii] == PinClass::PowerBottom {
                assert(bt.contains(ii as usize));
            } else {
                assert(l.contains(ii as usize));
            }
        }
    } else {
        assert(idx =~= l + r + tp + bt);
        lemma_class_run(c, PinClass::Left);
        lemma_class_run(c, PinClass::Right);
        lemma_class_run(c, PinClass::PowerTop);
        lemma_class_run(c, PinClass::PowerBottom);
        lemma_four_runs(c, l, r, tp, bt);
        assert forall|i: usize| i < c.len() implies #[trigger] idx.contains(i) by {
            let ii = i as int;
            if c[ii] == PinClass::Left {
                assert(l.contains(ii as usize));
                let j = choose|j: int| 0 <= j < l.len() && l[j] == i;
                assert(idx[j] == i);
            } else if c[ii] == PinClass::Right {
                assert(r.contains(ii as usize));
                let j = choose|j: int| 0 <= j < r.len() && r[j] == i;
                assert(idx[l.len() + j] == i);
            } else if c[ii] == PinClass::PowerTop {
                assert(tp.contains(ii as usize));
                let j = choose|j: int| 0 <= j < tp.len() && tp[j] == i;
                assert(idx[l.len() + r.len() + j] == i);
            } else {
                assert(bt.contains(ii as usize));
                let j = choose|j: int| 0 <= j < bt.len() && bt[j] == i;
                assert(idx[l.len() + r.len() + tp.len() + j] == i);
            }
        }
    }
    assert forall|k: int| 0 <= k < idx.len() implies (#[trigger] idx[k]) < c.len() by {
        if l.len() == 0 && r.len() == 0 {
        } else if r.len() == 0 && tp.len() == 0 && bt.len() == 0 {
            assert(idx[k] == l[k]);
        } else {
            let s1 = l.len();
            let s2 = s1 + r.len();
            let s3 = s2 + tp.len();
            if k < s1 {
                assert(idx[k] == l[k]);
            } else if k < s2 {
                assert(idx[k] == r[k - s1]);
            } else if k < s3 {
                assert(idx[k] == tp[k - s2]);
            } else {
                assert(idx[k] == bt[k - s3]);
            }
        }
    }
}

/// Four runs of the four classes, concatenated, have no duplicates.
proof fn lemma_four_runs(c: Seq<PinClass>, l: Seq<usize>, r: Seq<usize>, tp: Seq<usize>, bt: Seq<usize>)
    requires
        class_run(l, c, PinClass::Left),
        class_run(r, c, PinClass::Right),
        class_run(tp, c, PinClass::PowerTop),
        class_run(bt, c, PinClass::PowerBottom),
    ensures
        (l + r + tp + bt).no_duplicates(),
{
    let all = l + r + tp + bt;
    let s1 = l.len() as int;
    let s2 = s1 + r.len();
    let s3 = s2 + tp.len();
    assert forall|x: int| 0 <= x < all.len() implies (#[trigger] all[x]) < c.len()
        && c[all[x] as int] == (if x < s1 { PinClass::Left } else if x < s2 { PinClass::Right } else if x < s3 { PinClass::PowerTop } else { PinClass::PowerBottom }) by {
        if x < s1 {
            assert(all[x] == l[x]);
        } else if x < s2 {
            assert(all[x] == r[x - s1]);
        } else if x < s3 {
            assert(all[x] == tp[x - s2]);
        } else {
            assert(all[x] == bt[x - s3]);
        }
    }
    assert forall|x: int, y: int| 0 <= x < all.len() && 0 <= y < all.len() && x != y implies all[x] != all[y] by {
        if x < s1 && y < s1 {
            assert(all[x] == l[x] && all[y] == l[y]);
        } else if s1 <= x < s2 && s1 <= y < s2 {
            assert(all[x] == r[x - s1] && all[y] == r[y - s1]);
        } else if s2 <= x < s3 && s2 <= y < s3 {
            assert(all[x] == tp[x - s2] && all[y] == tp[y - s2]);
        } else if s3 <= x && s3 <= y {
            assert(all[x] == bt[x - s3] && all[y] == bt[y - s3]);
        }
    }
}

/// Every pin is placed exactly once: the placed indices are distinct pin indices and
/// every pin index is placed.
pub proof fn lemma_layout_places_each_pin_once(c: Seq<PinClass>)
    requires
        c.len() <= usize::MAX,
    ensures
        placed_indices(layout_pins_spec(c)).no_duplicates(),
        forall|k: int| 0 <= k < layout_pins_spec(c).len() ==> (#[trigger] layout_pins_spec(c)[k]).index < c.len(),
        forall|i: usize| i < c.len() ==> #[trigger] placed_indices(layout_pins_spec(c)).contains(i),
{
    lemma_placed_are_sides(c);
    lemma_side_indices(c);
    let p = layout_pins_spec(c);
    assert forall|k: int| 0 <= k < p.len() implies (#[trigger] p[k]).index < c.len() by {
        assert(placed_indices(p)[k] == p[k].index);
    }
}

} // verus!
