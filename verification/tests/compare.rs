use stm32_data_mcp::compare::{compare_report, mem_summary, memory_totals_fit};
use stm32_data_mcp::model::{
    ChipData, CoreData, DmaChannelData, InterruptData, MemoryKind, MemoryRegion, PackageData,
    PackagePin, PeripheralData,
};

fn s(x: &str) -> String {
    x.to_string()
}

fn periph(name: &str) -> PeripheralData {
    PeripheralData {
        name: s(name),
        address: 0,
        registers: None,
        rcc: None,
        pins: vec![],
        interrupts: vec![],
        dma_channels: vec![],
    }
}

fn region(name: &str, kind: MemoryKind, size: u32) -> MemoryRegion {
    MemoryRegion { name: s(name), kind, address: 0, size, settings: None }
}

fn chip(name: &str, periphs: &[&str], irqs: usize, dmas: usize, memory: Vec<Vec<MemoryRegion>>) -> ChipData {
    ChipData {
        name: s(name),
        family: s("STM32F4"),
        line: s(&name[..9]),
        die: s("DIE431"),
        device_id: 0,
        cores: vec![CoreData {
            name: s("cm4"),
            nvic_priority_bits: None,
            peripherals: periphs.iter().map(|p| periph(p)).collect(),
            interrupts: (0..irqs).map(|i| InterruptData { name: format!("I{}", i), number: i as u32 }).collect(),
            dma_channels: (0..dmas)
                .map(|i| DmaChannelData { name: format!("D{}", i), dma: s("DMA1"), channel: i as u32 })
                .collect(),
        }],
        memory,
        packages: vec![PackageData {
            name: s("P"),
            package: s("LQFP64"),
            pins: (0..64).map(|i| PackagePin { position: format!("{}", i), signals: vec![] }).collect(),
        }],
        docs: vec![],
    }
}

#[test]
fn memory_totals_exclude_otp() {
    let memory = vec![
        vec![
            region("BANK_1", MemoryKind::Flash, 262144),
            region("OTP", MemoryKind::Flash, 528),
            region("SRAM1", MemoryKind::Ram, 65536),
        ],
        vec![region("BANK_2", MemoryKind::Flash, 262144), region("SRAM2", MemoryKind::Ram, 32768)],
    ];
    assert!(memory_totals_fit(&memory));
    assert_eq!(mem_summary(&memory), (524288, 98304));
    assert_eq!(mem_summary(&vec![]), (0, 0));
}

#[test]
fn memory_totals_beyond_32_bits_are_detected() {
    let memory = vec![vec![
        region("A", MemoryKind::Ram, u32::MAX),
        region("B", MemoryKind::Ram, 1),
    ]];
    assert!(!memory_totals_fit(&memory));
}

#[test]
fn comparison_of_two_chips() {
    let a = chip(
        "STM32F411CE",
        &["USART1", "SPI1", "SPI5", "USART1"],
        52,
        16,
        vec![vec![region("FLASH", MemoryKind::Flash, 524288), region("SRAM", MemoryKind::Ram, 131072)]],
    );
    let b = chip(
        "STM32F401RE",
        &["SPI1", "USART1", "ADC1"],
        51,
        16,
        vec![vec![region("FLASH", MemoryKind::Flash, 524288), region("SRAM", MemoryKind::Ram, 98304)]],
    );
    let expected = [
        "Comparison: STM32F411CE vs STM32F401RE\n\n",
        "Family: STM32F4 vs STM32F4\n",
        "Line: STM32F411 vs STM32F401\n",
        "Die: DIE431 vs DIE431\n",
        "\n--- Memory ---\n",
        "  Flash: 512KB vs 512KB\n",
        "  RAM: 128KB vs 96KB\n",
        "\n--- Packages ---\n",
        "  STM32F411CE: LQFP64 (64pin)\n",
        "  STM32F401RE: LQFP64 (64pin)\n",
        "\n--- Peripherals ---\n",
        "  Common: 2 peripherals\n",
        "  Only on STM32F411CE: SPI5\n",
        "  Only on STM32F401RE: ADC1\n",
        "\n--- Interrupts ---\n  STM32F411CE: 52\n  STM32F401RE: 51\n",
        "\n--- DMA channels ---\n  STM32F411CE: 16\n  STM32F401RE: 16\n",
    ]
    .concat();
    assert_eq!(compare_report(&a, &b), expected);
}

#[test]
fn identical_peripheral_sets_are_reported() {
    let a = chip("STM32F411CE", &["B", "A"], 0, 0, vec![]);
    let b = chip("STM32F411RE", &["A", "B", "A"], 0, 0, vec![]);
    let r = compare_report(&a, &b);
    assert!(r.contains("  Common: 2 peripherals\n  Both chips have identical peripheral sets.\n"));
    assert!(!r.contains("Only on"));
    assert!(r.contains("  Flash: 0B vs 0B\n"));
}

#[test]
fn only_lists_are_sorted_and_disjoint() {
    let a = chip("STM32F411CE", &["TIM9", "ADC1", "TIM10", "ADC1"], 0, 0, vec![]);
    let b = chip("STM32F401RE", &["GPIOA"], 0, 0, vec![]);
    let r = compare_report(&a, &b);
    assert!(r.contains("  Common: 0 peripherals\n  Only on STM32F411CE: ADC1, TIM10, TIM9\n  Only on STM32F401RE: GPIOA\n"));
    let r2 = compare_report(&b, &a);
    assert!(r2.contains("  Only on STM32F401RE: GPIOA\n  Only on STM32F411CE: ADC1, TIM10, TIM9\n"));
}

#[test]
fn comparison_is_symmetric_in_its_peripheral_section() {
    let a = chip("STM32F411CE", &["SPI5", "USART1", "SPI1"], 0, 0, vec![]);
    let b = chip("STM32F401RE", &["ADC1", "SPI1", "USART1", "ADC1"], 0, 0, vec![]);
    let ab = compare_report(&a, &b);
    let ba = compare_report(&b, &a);
    let only_a = "  Only on STM32F411CE: SPI5\n";
    let only_b = "  Only on STM32F401RE: ADC1\n";
    assert!(ab.contains(&format!("  Common: 2 peripherals\n{}{}", only_a, only_b)));
    assert!(ba.contains(&format!("  Common: 2 peripherals\n{}{}", only_b, only_a)));
    assert!(!ab.contains("identical") && !ba.contains("identical"));
    let c = chip("STM32F411RE", &["USART1", "SPI1", "SPI5"], 0, 0, vec![]);
    assert!(compare_report(&a, &c).contains("  Common: 3 peripherals\n  Both chips have identical peripheral sets.\n"));
    assert!(compare_report(&c, &a).contains("  Common: 3 peripherals\n  Both chips have identical peripheral sets.\n"));
}
