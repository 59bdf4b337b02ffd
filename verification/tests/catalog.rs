use stm32_data_mcp::catalog::{
    chip_file_name, chip_not_found, chip_parse_failure, strip_json_suffix, ChipIndex,
};
use stm32_data_mcp::model::{ChipData, CoreData, PeripheralData};

fn s(x: &str) -> String {
    x.to_string()
}

fn files() -> Vec<String> {
    vec![
        s("STM32G431KB.json"),
        s("STM32F411CE.json"),
        s("README.md"),
        s("STM32F401RE.json"),
        s("STM32L071CB.json"),
        s(".json"),
    ]
}

fn chip_with(name: &str, periphs: &[&str]) -> ChipData {
    ChipData {
        name: s(name),
        family: s(""),
        line: s(""),
        die: s(""),
        device_id: 0,
        cores: vec![CoreData {
            name: s("cm4"),
            nvic_priority_bits: None,
            peripherals: periphs
                .iter()
                .map(|p| PeripheralData {
                    name: s(p),
                    address: 0,
                    registers: None,
                    rcc: None,
                    pins: vec![],
                    interrupts: vec![],
                    dma_channels: vec![],
                })
                .collect(),
            interrupts: vec![],
            dma_channels: vec![],
        }],
        memory: vec![],
        packages: vec![],
        docs: vec![],
    }
}

#[test]
fn catalog_keeps_json_files_sorted() {
    let index = ChipIndex::from_file_names(&files());
    assert_eq!(index.len(), 5);
    assert_eq!(
        index.list_chips(None),
        "5 chips found:\n\nSTM32F401RE\nSTM32F411CE\nSTM32G431KB\nSTM32L071CB"
    );
}

#[test]
fn listing_filters_by_upper_cased_family() {
    let index = ChipIndex::from_file_names(&files());
    assert_eq!(index.list_chips(Some("stm32f4")), "2 chips found:\nSTM32F401RE\nSTM32F411CE");
    assert_eq!(index.list_chips(Some("STM32H7")), "No chips found matching the filter.");
}

#[test]
fn file_names_and_chip_names_round_trip() {
    assert_eq!(chip_file_name("STM32F411CE"), "STM32F411CE.json");
    assert_eq!(strip_json_suffix("STM32F411CE.json"), Some(s("STM32F411CE")));
    assert_eq!(strip_json_suffix(&chip_file_name("X")), Some(s("X")));
    assert_eq!(strip_json_suffix("notes.txt"), None);
    assert_eq!(strip_json_suffix("json"), None);
    assert_eq!(strip_json_suffix(".json"), Some(s("")));
}

#[test]
fn load_messages() {
    assert_eq!(
        chip_not_found("STM32X"),
        "Chip 'STM32X' not found. Use list_chips to see available chips."
    );
    assert_eq!(chip_parse_failure("EOF"), "Failed to parse chip data: EOF");
}

#[test]
fn search_finds_chips_with_the_peripheral() {
    let index = ChipIndex::from_file_names(&files());
    let mut search = index.start_search("fdcan1", Some("stm32"));
    let mut seen = Vec::new();
    while let Some(name) = search.next_candidate() {
        seen.push(name.clone());
        if name == "STM32G431KB" {
            let chip = chip_with(&name, &["FDCAN1", "USART1"]);
            search.record(Some(&chip));
        } else if name == "STM32L071CB" {
            search.record(None);
        } else {
            let chip = chip_with(&name, &["USART1"]);
            search.record(Some(&chip));
        }
    }
    assert_eq!(seen, vec![s("STM32F401RE"), s("STM32F411CE"), s("STM32G431KB"), s("STM32L071CB")]);
    assert_eq!(search.report(), "1 chips with FDCAN1:\nSTM32G431KB");
}

#[test]
fn search_without_matches_names_the_family() {
    let index = ChipIndex::from_file_names(&files());
    let mut search = index.start_search("ltdc", Some("stm32f4"));
    while let Some(name) = search.next_candidate() {
        let chip = chip_with(&name, &["USART1"]);
        search.record(Some(&chip));
    }
    assert_eq!(search.report(), "No chips found with peripheral 'LTDC' in family STM32F4.");
    let search = index.start_search("ltdc", None);
    assert_eq!(search.report(), "No chips found with peripheral 'LTDC'.");
}

fn run_search(index: &ChipIndex, peripheral: &str, family: Option<&str>) -> String {
    let mut search = index.start_search(peripheral, family);
    while let Some(name) = search.next_candidate() {
        if name.ends_with("KB") || name.ends_with("CE") {
            let chip = chip_with(&name, &["FDCAN1", "SPI1"]);
            search.record(Some(&chip));
        } else if name.ends_with("CB") {
            search.record(None);
        } else {
            let chip = chip_with(&name, &["SPI1"]);
            search.record(Some(&chip));
        }
    }
    search.report()
}

#[test]
fn family_search_keeps_the_unfiltered_matches_of_the_family() {
    let index = ChipIndex::from_file_names(&files());
    assert_eq!(run_search(&index, "fdcan1", None), "2 chips with FDCAN1:\nSTM32F411CE\nSTM32G431KB");
    assert_eq!(run_search(&index, "FDCAN1", Some("stm32f4")), "1 chips with FDCAN1:\nSTM32F411CE");
    assert_eq!(run_search(&index, "fdcan1", Some("STM32G")), "1 chips with FDCAN1:\nSTM32G431KB");
    assert_eq!(
        run_search(&index, "fdcan1", Some("stm32l0")),
        "No chips found with peripheral 'FDCAN1' in family STM32L0."
    );
    assert_eq!(run_search(&index, "spi1", Some("stm32")), "3 chips with SPI1:\nSTM32F401RE\nSTM32F411CE\nSTM32G431KB");
}

#[test]
fn listing_and_search_by_exact_key() {
    let index = ChipIndex::from_file_names(&files());
    assert_eq!(index.list_chips_for(Some("STM32F4")), "2 chips found:\nSTM32F401RE\nSTM32F411CE");
    assert_eq!(index.list_chips_for(Some("stm32f4")), "No chips found matching the filter.");
    assert_eq!(index.list_chips_for(None), index.list_chips(None));
    let mut search = index.start_search_for("FDCAN1", Some("STM32G"));
    let mut seen = Vec::new();
    while let Some(name) = search.next_candidate() {
        seen.push(name.clone());
        let chip = chip_with(&name, &["FDCAN1"]);
        search.record(Some(&chip));
    }
    assert_eq!(seen, vec![s("STM32G431KB")]);
    assert_eq!(search.report(), "1 chips with FDCAN1:\nSTM32G431KB");
    let mut lower = index.start_search_for("fdcan1", None);
    while let Some(name) = lower.next_candidate() {
        let chip = chip_with(&name, &["FDCAN1"]);
        lower.record(Some(&chip));
    }
    assert_eq!(lower.report(), "No chips found with peripheral 'fdcan1'.");
}
