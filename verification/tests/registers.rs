use stm32_data_mcp::json::Json;
use stm32_data_mcp::model::{ChipData, CoreData, PeripheralData, RegisterRef};
use stm32_data_mcp::registers::{
    register_block_report, register_document, register_file_missing, register_file_name, register_parse_failure,
    register_query, register_query_for, register_range_fault, register_ranges_fit, RangeFault,
    RegisterQuery,
};

fn s(x: &str) -> String {
    x.to_string()
}

fn obj(members: Vec<(&str, Json)>) -> Json {
    Json::Object(members.into_iter().map(|(k, v)| (s(k), v)).collect())
}

fn text(x: &str) -> Json {
    Json::Str(s(x))
}

fn num(n: u64) -> Json {
    Json::Number(Some(n))
}

fn periph(name: &str, regs: Option<(&str, &str, &str)>) -> PeripheralData {
    PeripheralData {
        name: s(name),
        address: 0,
        registers: regs.map(|(k, v, b)| RegisterRef { kind: s(k), version: s(v), block: s(b) }),
        rcc: None,
        pins: vec![],
        interrupts: vec![],
        dma_channels: vec![],
    }
}

fn core_of(name: &str, ps: Vec<PeripheralData>) -> CoreData {
    CoreData { name: s(name), nvic_priority_bits: None, peripherals: ps, interrupts: vec![], dma_channels: vec![] }
}

fn chip(cores: Vec<CoreData>) -> ChipData {
    ChipData {
        name: s("STM32H745XI"),
        family: s("STM32H7"),
        line: s("STM32H745"),
        die: s("DIE450"),
        device_id: 0x450,
        cores,
        memory: vec![],
        packages: vec![],
        docs: vec![],
    }
}

fn usart_doc() -> Json {
    obj(vec![
        (
            "block/USART",
            obj(vec![
                ("description", text("Universal synchronous asynchronous receiver transmitter")),
                (
                    "items",
                    Json::Array(vec![
                        obj(vec![
                            ("name", text("CR1")),
                            ("description", text("Control register 1")),
                            ("byte_offset", num(0)),
                            ("fieldset", text("CR1")),
                        ]),
                        obj(vec![
                            ("name", text("RDR")),
                            ("byte_offset", num(36)),
                            ("access", text("Read")),
                            ("bit_size", num(16)),
                        ]),
                        obj(vec![("byte_offset", Json::Number(None))]),
                    ]),
                ),
            ]),
        ),
        (
            "fieldset/CR1",
            obj(vec![(
                "fields",
                Json::Array(vec![
                    obj(vec![("name", text("UE")), ("bit_offset", num(0)), ("bit_size", num(1)), ("description", text("USART enable"))]),
                    obj(vec![("name", text("M0")), ("bit_offset", num(12))]),
                    obj(vec![("name", text("DEAT")), ("bit_offset", num(21)), ("bit_size", num(5))]),
                    obj(vec![("bit_size", Json::Null)]),
                ]),
            )]),
        ),
    ])
}

#[test]
fn register_query_finds_the_block() {
    let c = chip(vec![core_of("cm7", vec![periph("USART1", Some(("usart", "v4", "USART")))])]);
    let q = register_query(&c, "usart1").ok().unwrap();
    assert_eq!(q.peripheral, "USART1");
    assert_eq!(q.registers.block, "USART");
    assert_eq!(register_file_name(&q.registers), "usart_v4.json");
}

#[test]
fn register_query_last_core_with_the_peripheral_decides() {
    let c = chip(vec![
        core_of("cm7", vec![periph("USART1", Some(("usart", "v4", "USART")))]),
        core_of("cm4", vec![periph("USART1", None)]),
    ]);
    assert_eq!(
        register_query(&c, "usart1").err().unwrap(),
        "Peripheral 'USART1' not found on STM32H745XI, or it has no register block."
    );
    let c2 = chip(vec![
        core_of("cm7", vec![periph("USART1", None)]),
        core_of("cm4", vec![periph("SPI1", None), periph("USART1", Some(("usart", "v3", "USART"))), periph("USART1", None)]),
    ]);
    assert_eq!(register_query(&c2, "USART1").ok().unwrap().registers.version, "v3");
    assert!(register_query(&c2, "i2c1").is_err());
}

#[test]
fn register_report_lists_registers_and_fields() {
    let c = chip(vec![core_of("cm7", vec![periph("USART1", Some(("usart", "v4", "USART")))])]);
    let q = RegisterQuery {
        peripheral: s("USART1"),
        registers: RegisterRef { kind: s("usart"), version: s("v4"), block: s("USART") },
    };
    let doc = usart_doc();
    assert!(register_ranges_fit(&doc, "USART"));
    let expected = [
        "Registers for USART1 on STM32H745XI (usart_v4, block=USART):\n\n",
        "Universal synchronous asynchronous receiver transmitter\n\n",
        "Registers:\n",
        "  0x0000 CR1 \u{2014} Control register 1\n",
        "    [0] UE \u{2014} USART enable\n",
        "    [12] M0\n",
        "    [21:25] DEAT\n",
        "    [0] ?\n",
        "  0x0024 RDR (16bit) [Read]\n",
        "  0x0000 ?\n",
    ]
    .concat();
    assert_eq!(register_block_report(&c, &q, &doc), expected);
}

#[test]
fn register_report_edge_cases() {
    let c = chip(vec![]);
    let q = RegisterQuery {
        peripheral: s("X"),
        registers: RegisterRef { kind: s("k"), version: s("v"), block: s("B") },
    };
    assert_eq!(register_block_report(&c, &q, &Json::Array(vec![])), "Invalid register data format.");
    assert_eq!(
        register_block_report(&c, &q, &obj(vec![])),
        "Registers for X on STM32H745XI (k_v, block=B):\n\n"
    );
    assert_eq!(register_file_missing("k_v.json"), "Register file 'k_v.json' not found.");
    assert_eq!(register_parse_failure("bad"), "Failed to parse register data: bad");
}

#[test]
fn register_field_ranges_that_overflow_are_detected() {
    let doc = obj(vec![
        ("block/B", obj(vec![("items", Json::Array(vec![obj(vec![("fieldset", text("F"))])]))])),
        (
            "fieldset/F",
            obj(vec![("fields", Json::Array(vec![obj(vec![("bit_offset", num(0)), ("bit_size", num(0))])]))]),
        ),
    ]);
    assert!(!register_ranges_fit(&doc, "B"));
    assert!(register_ranges_fit(&doc, "C"));
}

#[test]
fn register_document_parses_the_file_text() {
    let doc = register_document(r#"{"zeta": [1, -2, 2.5, true, null], "alpha": {"k": "v"}}"#).ok().unwrap();
    let members = match doc {
        Json::Object(m) => m,
        _ => panic!("not an object"),
    };
    assert_eq!(members.len(), 2);
    assert_eq!(members[0].0, "alpha");
    assert_eq!(members[1].0, "zeta");
    match &members[0].1 {
        Json::Object(inner) => {
            assert_eq!(inner.len(), 1);
            assert_eq!(inner[0].0, "k");
            assert!(matches!(&inner[0].1, Json::Str(t) if t == "v"));
        }
        _ => panic!("not an object"),
    }
    match &members[1].1 {
        Json::Array(items) => {
            assert_eq!(items.len(), 5);
            assert!(matches!(items[0], Json::Number(Some(1))));
            assert!(matches!(items[1], Json::Number(None)));
            assert!(matches!(items[2], Json::Number(None)));
            assert!(matches!(items[3], Json::Bool(true)));
            assert!(matches!(items[4], Json::Null));
        }
        _ => panic!("not an array"),
    }
}

#[test]
fn register_document_reports_parse_failures() {
    let e = register_document("{\"block/USART\": ").err().unwrap();
    assert!(e.starts_with("Failed to parse register data: "));
    assert!(e.len() > "Failed to parse register data: ".len());
    let e2 = register_document("").err().unwrap();
    assert!(e2.starts_with("Failed to parse register data: "));
}

#[test]
fn register_report_from_file_text() {
    let c = chip(vec![core_of("cm7", vec![periph("SPI1", Some(("spi", "v1", "SPI")))])]);
    let q = register_query(&c, "spi1").ok().unwrap();
    let doc = register_document(
        r#"{"block/SPI": {"items": [{"name": "CR1", "byte_offset": 0}, {"name": "SR", "byte_offset": 8, "access": "Read"}]}}"#,
    )
    .ok()
    .unwrap();
    assert!(register_ranges_fit(&doc, "SPI"));
    assert_eq!(
        register_block_report(&c, &q, &doc),
        "Registers for SPI1 on STM32H745XI (spi_v1, block=SPI):\n\nRegisters:\n  0x0000 CR1\n  0x0008 SR [Read]\n"
    );
}

#[test]
fn register_query_by_exact_key() {
    let c = chip(vec![core_of("cm7", vec![periph("USART1", Some(("usart", "v4", "USART")))])]);
    assert_eq!(register_query_for(&c, "USART1").ok().unwrap().registers.version, "v4");
    assert_eq!(
        register_query_for(&c, "usart1").err().unwrap(),
        "Peripheral 'usart1' not found on STM32H745XI, or it has no register block."
    );
}

#[test]
fn register_report_lists_enumerated_values() {
    let c = chip(vec![core_of("cm4", vec![periph("DMA1", Some(("dma", "v1", "DMA")))])]);
    let q = register_query(&c, "dma1").ok().unwrap();
    let doc = register_document(
        r#"{
            "block/DMA": {"items": [{"name": "CCR", "byte_offset": 8, "fieldset": "CCR"}]},
            "fieldset/CCR": {"fields": [
                {"name": "EN", "bit_offset": 0, "bit_size": 1},
                {"name": "DIR", "bit_offset": 4, "bit_size": 1, "enum": "DIR", "description": "Data transfer direction"},
                {"name": "PL", "bit_offset": 12, "bit_size": 2, "enum": "PL"},
                {"name": "MSIZE", "bit_offset": 10, "bit_size": 2, "enum": "MISSING"}
            ]},
            "enum/DIR": {"bit_size": 1, "variants": [
                {"name": "FromPeripheral", "description": "Read from peripheral", "value": 0},
                {"name": "FromMemory", "value": 1}
            ]},
            "enum/PL": {"bit_size": 2, "variants": [{"name": "Low", "value": 0}, {"value": 3}]}
        }"#,
    )
    .ok()
    .unwrap();
    assert!(register_ranges_fit(&doc, "DMA"));
    let expected = [
        "Registers for DMA1 on STM32H745XI (dma_v1, block=DMA):\n\n",
        "Registers:\n",
        "  0x0008 CCR\n",
        "    [0] EN\n",
        "    [4] DIR \u{2014} Data transfer direction\n",
        "      0 = FromPeripheral \u{2014} Read from peripheral\n",
        "      1 = FromMemory\n",
        "    [12:13] PL\n",
        "      0 = Low\n",
        "      3 = ?\n",
        "    [10:11] MSIZE\n",
    ]
    .concat();
    assert_eq!(register_block_report(&c, &q, &doc), expected);
}

fn fields_doc(fields: Vec<Json>) -> Json {
    obj(vec![
        ("block/B", obj(vec![("items", Json::Array(vec![obj(vec![("name", text("R")), ("fieldset", text("F"))])]))])),
        ("fieldset/F", obj(vec![("fields", Json::Array(fields))])),
    ])
}

#[test]
fn register_range_faults_name_the_first_overflow() {
    let ok = obj(vec![("bit_offset", num(3)), ("bit_size", num(2))]);
    let sub = obj(vec![("bit_offset", num(0)), ("bit_size", num(0))]);
    let add = obj(vec![("bit_offset", num(u64::MAX)), ("bit_size", num(2))]);
    let one_bit_at_max = obj(vec![("bit_offset", num(u64::MAX)), ("bit_size", num(1))]);
    assert!(register_range_fault(&fields_doc(vec![ok, one_bit_at_max]), "B").is_none());
    let ok = obj(vec![("bit_offset", num(3)), ("bit_size", num(2))]);
    assert!(matches!(register_range_fault(&fields_doc(vec![ok, sub]), "B"), Some(RangeFault::SubtractOverflow)));
    let sub = obj(vec![("bit_offset", num(0)), ("bit_size", num(0))]);
    assert!(matches!(register_range_fault(&fields_doc(vec![add, sub]), "B"), Some(RangeFault::AddOverflow)));
    let add = obj(vec![("bit_offset", num(u64::MAX)), ("bit_size", num(2))]);
    let sub = obj(vec![("bit_offset", num(0)), ("bit_size", num(0))]);
    assert!(matches!(register_range_fault(&fields_doc(vec![sub, add]), "B"), Some(RangeFault::SubtractOverflow)));
    assert!(register_range_fault(&fields_doc(vec![]), "C").is_none());
}
