use vibecheat::cheat_table::{export_cheat_engine_ct, import_cheat_engine_ct, scan_type_from_ct_name, ct_name_of_scan_type};
use vibecheat::saved::new_saved_address;
use vibecheat::scan_type::ScanType;

const TABLE: &str = r#"<?xml version="1.0" encoding="utf-8"?>
<CheatTable CheatEngineTableVersion="45">
  <CheatEntries>
    <CheatEntry>
      <ID>0</ID>
      <Description>"Health"</Description>
      <VariableType>2 Bytes</VariableType>
      <Address> 1A2B </Address>
    </CheatEntry>
    <CheatEntry>
      <Description>No address</Description>
    </CheatEntry>
    <CheatEntry>
      <Address>ff</Address>
      <VariableType>Unknown</VariableType>
    </CheatEntry>
  </CheatEntries>
  <LuaScript>print(1)</LuaScript>
</CheatTable>
"#;

#[test]
fn import_reads_entries_and_script() {
    let (addrs, script) = import_cheat_engine_ct(TABLE).ok().unwrap();
    assert_eq!(addrs.len(), 2);
    assert_eq!(addrs[0].address, 0x1A2B);
    assert_eq!(addrs[0].description, "Health");
    assert_eq!(addrs[0].scan_type, ScanType::I16);
    assert_eq!(addrs[1].address, 0xff);
    assert_eq!(addrs[1].description, "Imported Address");
    assert_eq!(addrs[1].scan_type, ScanType::I32);
    assert!(!addrs[1].is_locked);
    assert_eq!(script, "print(1)");
}

#[test]
fn import_refuses_broken_xml() {
    assert!(import_cheat_engine_ct("<CheatTable><CheatEntry></CheatTable>").is_err());
    assert!(import_cheat_engine_ct("").is_err());
}

#[test]
fn export_writes_cheat_engine_layout() {
    let addrs = vec![new_saved_address(0x1A2B, "Health".to_string(), ScanType::I32)];
    let xml = export_cheat_engine_ct("print(1)", &addrs);
    assert_eq!(
        xml,
        "<?xml version=\"1.0\" encoding=\"utf-8\"?>\n<CheatTable CheatEngineTableVersion=\"45\">\n  <CheatEntries>\n    <CheatEntry>\n      <ID>0</ID>\n      <Description>\"Health\"</Description>\n      <VariableType>4 Bytes</VariableType>\n      <Address>1A2B</Address>\n    </CheatEntry>\n  </CheatEntries>\n  <LuaScript>print(1)</LuaScript>\n</CheatTable>\n"
    );
    let empty = export_cheat_engine_ct("", &Vec::new());
    assert_eq!(
        empty,
        "<?xml version=\"1.0\" encoding=\"utf-8\"?>\n<CheatTable CheatEngineTableVersion=\"45\">\n  <CheatEntries>\n  </CheatEntries>\n</CheatTable>\n"
    );
}

#[test]
fn export_then_import_gives_the_table_back() {
    let addrs = vec![
        new_saved_address(0x10, "Gold".to_string(), ScanType::I64),
        new_saved_address(0xDEADBEEF, "Speed".to_string(), ScanType::F32),
        new_saved_address(0, "Zero".to_string(), ScanType::I8),
    ];
    let xml = export_cheat_engine_ct("vibe.set_speed(2.0)", &addrs);
    let (back, script) = import_cheat_engine_ct(&xml).ok().unwrap();
    assert_eq!(script, "vibe.set_speed(2.0)");
    assert_eq!(back.len(), 3);
    for (a, b) in addrs.iter().zip(back.iter()) {
        assert_eq!(a.address, b.address);
        assert_eq!(a.description, b.description);
        assert_eq!(a.scan_type, b.scan_type);
    }
}

#[test]
fn type_names() {
    for t in [ScanType::I8, ScanType::I16, ScanType::I32, ScanType::I64, ScanType::F32, ScanType::F64] {
        assert_eq!(scan_type_from_ct_name(ct_name_of_scan_type(t)), t);
    }
    assert_eq!(scan_type_from_ct_name("String"), ScanType::I32);
    assert_eq!(ct_name_of_scan_type(ScanType::F64), "Double");
}
