use os_test::boot::{largest_usable_region, MemRegion};
use os_test::hexdump::hexdumpm;
use os_test::idt::{IdtEntry, IdtEntryType};
use os_test::ioapic::{
    DeilveryMode, DestinationMode, InterruptPolarity, IoApicRedirectEntry, TriggerMode,
};
use os_test::screen::Color;
use os_test::time::{SmallDuration, MAX_NANOS};

#[test]
fn colors() {
    assert_eq!(Color::red().0, 0xFF0000);
    assert_eq!(Color::green().0, 0xFF00);
    assert_eq!(Color::blue().0, 0xFF);
    assert_eq!(Color::white().0, 0xFFFFFF);
    assert_eq!(Color::black().0, 0);
}

#[test]
fn small_durations() {
    let d = SmallDuration::new(1500).unwrap();
    assert_eq!(d.as_femto_secs(), 1_500_000_000);
    assert!(SmallDuration::new(MAX_NANOS as u128).is_some());
    assert!(SmallDuration::new(MAX_NANOS as u128 + 1).is_none());
}

#[test]
fn idt_entry_packing() {
    let handler = 0x1122_3344_5566_7788u64;
    let e = IdtEntry::new(IdtEntryType::Interrupt(handler), 0x8);
    let raw = e.to_raw();
    assert_eq!(raw.fn_ptr_low, 0x7788);
    assert_eq!(raw.fn_ptr_mid, 0x5566);
    assert_eq!(raw.fn_ptr_high, 0x1122_3344);
    assert_eq!(raw.gdt_kernel_cs, 0x8);
    assert_eq!(raw.options, 0x8E00);
    assert_eq!(raw.reserved, 0);
    let t = IdtEntry::new(IdtEntryType::Trap(handler), 0x10);
    assert_eq!(t.to_raw().options, 0x8F00);
}

#[test]
fn redirect_entry_packing() {
    let entry = IoApicRedirectEntry {
        dest: 0,
        mask: false,
        trigger_mode: TriggerMode::EdgeSensetive,
        interrupt_polarity: InterruptPolarity::HighActive,
        destination_mode: DestinationMode::Physical,
        delivery_mode: DeilveryMode::Fixed,
        redirected_irq_num: 32,
    };
    assert_eq!(entry.as_raw(), 32);
    let masked = IoApicRedirectEntry {
        dest: 1,
        mask: true,
        trigger_mode: TriggerMode::LevelSensetive,
        interrupt_polarity: InterruptPolarity::LowActive,
        destination_mode: DestinationMode::Logical,
        delivery_mode: DeilveryMode::LowestPriority,
        redirected_irq_num: 33,
    };
    assert_eq!(
        masked.as_raw(),
        33 | (1 << 8) | (1 << 11) | (1 << 13) | (1 << 15) | (1 << 16)
    );
}

#[test]
fn pick_largest_usable() {
    let regions = vec![
        MemRegion { base: 0x1000, length: 0x2000, usable: true },
        MemRegion { base: 0x10000, length: 0x9000, usable: false },
        MemRegion { base: 0x100000, length: 0x5000, usable: true },
        MemRegion { base: 0x200000, length: 0x5000, usable: true },
    ];
    // the last of the equally largest usable regions wins
    let best = largest_usable_region(&regions).unwrap();
    assert_eq!(best.base, 0x200000);
    let none = largest_usable_region(&vec![
        MemRegion { base: 0, length: 0x1000, usable: false },
    ]);
    assert!(none.is_none());
    let empty = largest_usable_region(&Vec::new());
    assert!(empty.is_none());
}

#[test]
fn hexdump_lines() {
    // two bytes: offset, both bytes in hex, fourteen blank slots, then the
    // printable view
    let out = hexdumpm(b"AB", None);
    assert_eq!(String::from_utf8(out).unwrap(), format!("0000: 41 42 {} AB", "   ".repeat(14)));
    // seventeen bytes spill onto a second line with its own offset
    let data: Vec<u8> = (0u8..17).collect();
    let out = String::from_utf8(hexdumpm(&data, None)).unwrap();
    let lines: Vec<&str> = out.split('\n').collect();
    assert_eq!(lines.len(), 2);
    assert!(lines[0].starts_with("0000: 00 01 02 03 04 05 06 07 08 09 0A 0B 0C 0D 0E 0F "));
    assert!(lines[1].starts_with("0016: 10 "));
    // unprintable bytes show as dots
    assert!(lines[0].ends_with(" ................"));
    // a line limit cuts the dump
    let cut = String::from_utf8(hexdumpm(&data, Some(1))).unwrap();
    assert_eq!(cut, lines[0]);
}
