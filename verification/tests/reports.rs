use stm32_data_mcp::info::chip_info_report;
use stm32_data_mcp::listings::{
    chip_pinout_report, dma_channels_report, docs_report, interrupts_report,
    memory_map_report, memory_regions_fit, peripherals_report,
};
use stm32_data_mcp::model::{
    ChipData, CoreData, DmaChannelData, DocData, InterruptData, KernelClock, MemoryKind,
    MemoryRegion, MemorySettings, PackageData, PackagePin, PeripheralData, PeripheralDma,
    PeripheralInterrupt, PeripheralPin, RccData, RccField, RegisterRef,
};
use stm32_data_mcp::peripheral::{
    fmt_kernel_clock, peripheral_info_for, peripheral_info_report, peripheral_pins_for,
    peripheral_pins_report, pin_functions_for, pin_functions_report,
};

fn s(x: &str) -> String {
    x.to_string()
}

fn field(register: &str, f: &str) -> RccField {
    RccField { register: s(register), field: s(f) }
}

fn usart1() -> PeripheralData {
    PeripheralData {
        name: s("USART1"),
        address: 0x4001_1000,
        registers: Some(RegisterRef { kind: s("usart"), version: s("v1"), block: s("USART") }),
        rcc: Some(RccData {
            bus_clock: s("APB2"),
            kernel_clock: KernelClock::Clock(s("PCLK2")),
            enable: field("APB2ENR", "USART1EN"),
            reset: Some(field("APB2RSTR", "USART1RST")),
            stop_mode: s("Stop1"),
        }),
        pins: vec![
            PeripheralPin { pin: s("PA9"), signal: s("TX"), af: Some(7) },
            PeripheralPin { pin: s("PA10"), signal: s("RX"), af: Some(7) },
        ],
        interrupts: vec![PeripheralInterrupt { signal: s("GLOBAL"), interrupt: s("USART1") }],
        dma_channels: vec![
            PeripheralDma { signal: s("TX"), request: Some(4) },
            PeripheralDma { signal: s("RX"), request: None },
        ],
    }
}

fn spi1() -> PeripheralData {
    PeripheralData {
        name: s("SPI1"),
        address: 0x4001_3000,
        registers: Some(RegisterRef { kind: s("spi"), version: s("v1"), block: s("SPI") }),
        rcc: None,
        pins: vec![
            PeripheralPin { pin: s("PA5"), signal: s("SCK"), af: Some(5) },
            PeripheralPin { pin: s("PA9"), signal: s("NSS"), af: None },
        ],
        interrupts: vec![],
        dma_channels: vec![],
    }
}

fn crc() -> PeripheralData {
    PeripheralData {
        name: s("CRC"),
        address: 0x4002_3000,
        registers: None,
        rcc: None,
        pins: vec![],
        interrupts: vec![],
        dma_channels: vec![],
    }
}

fn sample_chip() -> ChipData {
    ChipData {
        name: s("STM32F411CE"),
        family: s("STM32F4"),
        line: s("STM32F411"),
        die: s("DIE431"),
        device_id: 0x431,
        cores: vec![CoreData {
            name: s("cm4"),
            nvic_priority_bits: Some(4),
            peripherals: vec![usart1(), spi1(), crc()],
            interrupts: vec![
                InterruptData { name: s("USART1"), number: 37 },
                InterruptData { name: s("SPI1"), number: 35 },
                InterruptData { name: s("WWDG"), number: 0 },
                InterruptData { name: s("TIM1_UP"), number: 35 },
            ],
            dma_channels: vec![DmaChannelData { name: s("DMA1_CH0"), dma: s("DMA1"), channel: 0 }],
        }],
        memory: vec![vec![
            MemoryRegion {
                name: s("FLASH"),
                kind: MemoryKind::Flash,
                address: 0x0800_0000,
                size: 524288,
                settings: Some(MemorySettings { erase_size: 16384, write_size: 4, erase_value: 0xff }),
            },
            MemoryRegion {
                name: s("SRAM"),
                kind: MemoryKind::Ram,
                address: 0x2000_0000,
                size: 131072,
                settings: None,
            },
        ]],
        packages: vec![PackageData {
            name: s("STM32F411CEUx"),
            package: s("UFQFPN48"),
            pins: vec![
                PackagePin { position: s("1"), signals: vec![s("VBAT")] },
                PackagePin { position: s("2"), signals: vec![s("PC13"), s("RTC_TAMP1")] },
            ],
        }],
        docs: vec![DocData {
            doc_type: s("reference_manual"),
            title: s("STM32F411xC/E reference manual"),
            name: s("RM0383"),
            url: s("https://st.com/rm0383.pdf"),
        }],
    }
}

#[test]
fn chip_info_lists_identity_cores_memory_and_packages() {
    let expected = ["Chip: STM32F411CE\nFamily: STM32F4\nLine: STM32F411\nDie: DIE431\nDevice ID: 0x0431\n", "\nCore: cm4\n  NVIC priority bits: 4\n  Peripherals: 3\n  Interrupts: 4\n  DMA channels: 1\n", "\nMemory:\n  FLASH (Flash): 512KB at 0x08000000, erase=16KB, write=4B\n  SRAM (Ram): 128KB at 0x20000000\n", "\nPackages:\n  STM32F411CEUx (UFQFPN48, 2 pins)\n"].concat();
    assert_eq!(chip_info_report(&sample_chip()), expected);
}

#[test]
fn chip_info_omits_missing_nvic_bits_and_zero_erase_size() {
    let mut chip = sample_chip();
    chip.cores[0].nvic_priority_bits = None;
    chip.memory[0][0].settings = Some(MemorySettings { erase_size: 0, write_size: 8, erase_value: 0 });
    let r = chip_info_report(&chip);
    assert!(!r.contains("NVIC"));
    assert!(r.contains("  FLASH (Flash): 512KB at 0x08000000, write=8B\n"));
}

#[test]
fn pinout_lists_every_pin_with_its_signals() {
    let expected = ["Chip: STM32F411CE (family: STM32F4, line: STM32F411)\n", "\nPackage: STM32F411CEUx (UFQFPN48)\n2 pins:\n  Pin 1: VBAT\n  Pin 2: PC13, RTC_TAMP1\n"].concat();
    assert_eq!(chip_pinout_report(&sample_chip()), expected);
}

#[test]
fn peripherals_listing_shows_address_block_bus_and_pins() {
    let expected = ["Peripherals on STM32F411CE (1):\n\n", "  USART1 @ 0x40011000 [usart:v1:USART] bus=APB2 (2 pins)\n", "  SPI1 @ 0x40013000 [spi:v1:SPI] (2 pins)\n", "  CRC @ 0x40023000\n"].concat();
    assert_eq!(peripherals_report(&sample_chip()), expected);
}

#[test]
fn interrupts_are_sorted_by_number_and_stable() {
    let expected = "Interrupts on STM32F411CE:\n\n    0: WWDG\n   35: SPI1\n   35: TIM1_UP\n   37: USART1\n";
    assert_eq!(interrupts_report(&sample_chip()), expected);
}

#[test]
fn interrupts_name_each_core_when_there_are_several() {
    let mut chip = sample_chip();
    let mut second = CoreData {
        name: s("cm0p"),
        nvic_priority_bits: None,
        peripherals: vec![],
        interrupts: vec![InterruptData { name: s("IPCC"), number: 1000 }],
        dma_channels: vec![],
    };
    second.interrupts.push(InterruptData { name: s("EXTI0"), number: 6 });
    chip.cores.push(second);
    let r = interrupts_report(&chip);
    assert!(r.starts_with("Interrupts on STM32F411CE:\n\nCore: cm4\n    0: WWDG\n"));
    assert!(r.ends_with("Core: cm0p\n    6: EXTI0\n  1000: IPCC\n"));
}

#[test]
fn dma_channels_list_controller_and_channel() {
    assert_eq!(
        dma_channels_report(&sample_chip()),
        "DMA channels on STM32F411CE:\n\n  DMA1_CH0 (controller: DMA1, channel: 0)\n"
    );
}

#[test]
fn docs_list_type_title_name_and_link() {
    assert_eq!(
        docs_report(&sample_chip()),
        "Documentation for STM32F411CE:\n\n  [reference_manual] STM32F411xC/E reference manual\n    RM0383: https://st.com/rm0383.pdf\n"
    );
}

#[test]
fn memory_map_single_bank() {
    let expected = ["Memory map for STM32F411CE:\n\n", "  FLASH (Flash):\n    Address: 0x08000000 - 0x08080000\n    Size: 512KB (524288 bytes)\n    Erase size: 16KB\n    Write size: 4B\n    Erase value: 0xff\n", "  SRAM (Ram):\n    Address: 0x20000000 - 0x20020000\n    Size: 128KB (131072 bytes)\n"].concat();
    let chip = sample_chip();
    assert!(memory_regions_fit(&chip));
    assert_eq!(memory_map_report(&chip), expected);
}

#[test]
fn memory_map_numbers_banks_when_there_are_several() {
    let mut chip = sample_chip();
    chip.memory.push(vec![MemoryRegion {
        name: s("BANK_2"),
        kind: MemoryKind::Flash,
        address: 0x0810_0000,
        size: 1000,
        settings: Some(MemorySettings { erase_size: 0, write_size: 32, erase_value: 0 }),
    }]);
    let r = memory_map_report(&chip);
    assert!(r.starts_with("Memory map for STM32F411CE:\n\nBank 0:\n  FLASH (Flash):\n"));
    assert!(r.ends_with("Bank 1:\n  BANK_2 (Flash):\n    Address: 0x08100000 - 0x081003e8\n    Size: 1000B (1000 bytes)\n    Write size: 32B\n    Erase value: 0x00\n"));
}

#[test]
fn memory_regions_past_the_address_space_are_detected() {
    let mut chip = sample_chip();
    chip.memory[0][1].address = 0xFFFF_0000;
    assert!(!memory_regions_fit(&chip));
}

#[test]
fn peripheral_pins_of_a_peripheral_with_routes() {
    let expected = "Peripheral USART1 on STM32F411CE:\n\n  PA9 -> TX (AF7)\n  PA10 -> RX (AF7)\n";
    assert_eq!(peripheral_pins_report(&sample_chip(), "usart1"), expected);
}

#[test]
fn peripheral_pins_without_af_and_without_pins() {
    let r = peripheral_pins_report(&sample_chip(), "Spi1");
    assert_eq!(r, "Peripheral SPI1 on STM32F411CE:\n\n  PA5 -> SCK (AF5)\n  PA9 -> NSS\n");
    assert_eq!(
        peripheral_pins_report(&sample_chip(), "crc"),
        "Peripheral CRC exists on STM32F411CE but has no pin mappings."
    );
}

#[test]
fn peripheral_pins_not_found_lists_pinned_peripherals() {
    assert_eq!(
        peripheral_pins_report(&sample_chip(), "i2c1"),
        "Peripheral 'I2C1' not found on STM32F411CE.\nAvailable peripherals with pins: USART1, SPI1"
    );
}

#[test]
fn pin_functions_are_sorted() {
    let expected = "Pin PA9 on STM32F411CE \u{2014} 2 functions:\n\n  SPI1_NSS\n  USART1_TX (AF7)";
    assert_eq!(pin_functions_report(&sample_chip(), "pa9"), expected);
}

#[test]
fn pin_without_functions() {
    assert_eq!(
        pin_functions_report(&sample_chip(), "pb0"),
        "Pin 'PB0' has no peripheral mappings on STM32F411CE."
    );
}

#[test]
fn peripheral_info_full_details() {
    let expected = ["Peripheral USART1 on STM32F411CE (core: cm4):\n\n", "  Address: 0x40011000\n", "  Registers: kind=usart, version=v1, block=USART\n", "  Bus clock: APB2\n", "  Kernel clock: PCLK2\n", "  RCC enable: APB2ENR.USART1EN\n", "  RCC reset: APB2RSTR.USART1RST\n", "  Stop mode: Stop1\n", "  Pins: 2\n", "  Interrupts:\n    GLOBAL -> USART1\n", "  DMA channels:\n    TX (request=4)\n    RX\n"].concat();
    assert_eq!(peripheral_info_report(&sample_chip(), "usart1"), expected);
}

#[test]
fn peripheral_info_minimal_and_missing() {
    assert_eq!(
        peripheral_info_report(&sample_chip(), "CRC"),
        "Peripheral CRC on STM32F411CE (core: cm4):\n\n  Address: 0x40023000\n  Pins: 0\n"
    );
    assert_eq!(
        peripheral_info_report(&sample_chip(), "adc9"),
        "Peripheral 'ADC9' not found on STM32F411CE."
    );
}

#[test]
fn kernel_clock_forms() {
    assert_eq!(fmt_kernel_clock(&KernelClock::Clock(s("HSI16"))), "HSI16");
    assert_eq!(fmt_kernel_clock(&KernelClock::Mux(field("CCIPR", "USART1SEL"))), "CCIPR.USART1SEL");
}

#[test]
fn first_core_with_the_peripheral_answers_details() {
    let mut chip = sample_chip();
    let mut other = usart1();
    other.address = 0x5000_0000;
    chip.cores.push(CoreData {
        name: s("cm0"),
        nvic_priority_bits: None,
        peripherals: vec![other],
        interrupts: vec![],
        dma_channels: vec![],
    });
    let r = peripheral_info_report(&chip, "usart1");
    assert!(r.starts_with("Peripheral USART1 on STM32F411CE (core: cm4):\n\n  Address: 0x40011000\n"));
}

#[test]
fn lookups_by_exact_key() {
    let c = sample_chip();
    assert_eq!(
        peripheral_pins_for(&c, "SPI1"),
        "Peripheral SPI1 on STM32F411CE:\n\n  PA5 -> SCK (AF5)\n  PA9 -> NSS\n"
    );
    assert_eq!(
        peripheral_pins_for(&c, "spi1"),
        "Peripheral 'spi1' not found on STM32F411CE.\nAvailable peripherals with pins: USART1, SPI1"
    );
    assert_eq!(
        pin_functions_for(&c, "PA9"),
        "Pin PA9 on STM32F411CE \u{2014} 2 functions:\n\n  SPI1_NSS\n  USART1_TX (AF7)"
    );
    assert_eq!(pin_functions_for(&c, "pa9"), "Pin 'pa9' has no peripheral mappings on STM32F411CE.");
    assert_eq!(
        peripheral_info_for(&c, "CRC"),
        "Peripheral CRC on STM32F411CE (core: cm4):\n\n  Address: 0x40023000\n  Pins: 0\n"
    );
    assert_eq!(peripheral_info_for(&c, "crc"), "Peripheral 'crc' not found on STM32F411CE.");
    assert_eq!(peripheral_info_for(&c, "USART1"), peripheral_info_report(&c, "usart1"));
}
