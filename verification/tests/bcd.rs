use boot_workspace::bcd::{
    bcdedit_boot_sequence, bcdedit_delete, bcdedit_enum_all, bcdedit_set_description,
    extract_guid_for_partition_letter, extract_guid_for_vhd, normalize_vhd_path,
    parse_vhd_device_path, run_bcdboot, Invocation,
};

fn two_blocks() -> String {
    let mut text = String::new();
    text.push_str("identifier              {aaa}\r\n");
    text.push_str("device                  partition=[C:]\\path\\base.vhdx,locate=custom\r\n");
    text.push_str("description             Base\r\n");
    text.push_str("\r\n");
    text.push_str("identifier              {bbb}\r\n");
    text.push_str("device                  vhd=[C:]\\Diffs\\diff1.vhdx\r\n");
    text
}

fn args_of(inv: &Invocation) -> Vec<&str> {
    inv.args.iter().map(|a| a.as_str()).collect()
}

#[test]
fn normalization_ignores_case_separator_and_prefix() {
    assert_eq!(normalize_vhd_path("\\\\?\\C:\\x\\y"), normalize_vhd_path("c:/x/y"));
    assert_eq!(normalize_vhd_path("\\\\?\\C:\\x\\y"), "c:\\x\\y");
}

#[test]
fn normalization_exact_values() {
    assert_eq!(normalize_vhd_path("  C:/Disks/Base.VHDX \t"), "c:\\disks\\base.vhdx");
    assert_eq!(normalize_vhd_path("[C:]\\Diffs\\diff1.vhdx"), "c:\\diffs\\diff1.vhdx");
    assert_eq!(normalize_vhd_path("\\\\?\\\\\\?\\D:\\a"), "d:\\a");
    assert_eq!(normalize_vhd_path("[D:\\a"), "d:\\a");
    assert_eq!(normalize_vhd_path("x[1]]y["), "x1y");
    assert_eq!(normalize_vhd_path(""), "");
    assert_eq!(normalize_vhd_path(" \u{3000}\r\n"), "");
    assert_eq!(normalize_vhd_path("\u{c4}BC"), "\u{c4}bc");
}

#[test]
fn normalization_is_idempotent_on_settled_paths() {
    for p in ["\\\\?\\C:\\x\\y", "c:/x/y", "[C:]\\Diffs\\diff1.vhdx", " D:\\A B\\c.vhdx "] {
        let once = normalize_vhd_path(p);
        assert_eq!(normalize_vhd_path(&once), once);
    }
}

#[test]
fn normalization_can_uncover_more_to_strip() {
    let once = normalize_vhd_path("\\\\?\\ c:\\x");
    assert_eq!(once, " c:\\x");
    assert_eq!(normalize_vhd_path(&once), "c:\\x");
}

#[test]
fn parses_vhd_reference_up_to_the_comma() {
    assert_eq!(
        parse_vhd_device_path("device   vhd=[C:]\\Diffs\\diff1.vhdx,locate=custom:12000002"),
        Some("[C:]\\Diffs\\diff1.vhdx".to_string())
    );
    assert_eq!(
        parse_vhd_device_path("osdevice  VHD=[D:]\\a.vhdx"),
        Some("[D:]\\a.vhdx".to_string())
    );
    assert_eq!(
        parse_vhd_device_path("device vhd=   [D:]\\a.vhdx  trailing"),
        Some("[D:]\\a.vhdx".to_string())
    );
}

#[test]
fn rejects_lines_without_a_vhd_reference() {
    assert_eq!(parse_vhd_device_path("description vhd=[C:]\\x.vhdx"), None);
    assert_eq!(parse_vhd_device_path("device partition=C:"), None);
    assert_eq!(parse_vhd_device_path("device locate=custom,vhd=[C:]\\x.vhdx"), None);
    assert_eq!(parse_vhd_device_path("device vhd=   "), None);
    assert_eq!(parse_vhd_device_path("device vhd="), None);
    assert_eq!(parse_vhd_device_path(""), None);
}

#[test]
fn two_block_enumeration() {
    let text = two_blocks();
    assert_eq!(
        extract_guid_for_vhd(&text, "C:\\Diffs\\diff1.vhdx"),
        Some("{bbb}".to_string())
    );
    assert_eq!(extract_guid_for_vhd(&text, "D:\\nope.vhdx"), None);
}

#[test]
fn two_block_enumeration_by_partition_letter() {
    let plain = two_blocks().replace("partition=[C:]", "partition=C:");
    assert_eq!(extract_guid_for_partition_letter(&plain, 'c'), Some("{aaa}".to_string()));
    assert_eq!(extract_guid_for_partition_letter(&plain, 'C'), Some("{aaa}".to_string()));
    assert_eq!(extract_guid_for_partition_letter(&plain, 'd'), None);
    // The letter has to follow `partition=` directly: a bracket between them
    // is no match.
    assert_eq!(extract_guid_for_partition_letter(&two_blocks(), 'c'), None);
}

#[test]
fn vhd_match_is_scoped_to_the_block() {
    let text = "identifier {one}\ndescription x\ndevice vhd=[C:]\\a.vhdx\nidentifier {two}\nosdevice vhd=[C:]\\b.vhdx,locate=custom\n";
    assert_eq!(extract_guid_for_vhd(text, "c:/A.VHDX"), Some("{one}".to_string()));
    assert_eq!(extract_guid_for_vhd(text, "\\\\?\\C:\\b.vhdx"), Some("{two}".to_string()));
}

#[test]
fn device_line_before_any_identifier_gives_no_match() {
    let text = "device vhd=[C:]\\a.vhdx\nidentifier {late}\ndescription x\n";
    assert_eq!(extract_guid_for_vhd(text, "C:\\a.vhdx"), None);
    let text = "device partition=U:\nidentifier {late}\n";
    assert_eq!(extract_guid_for_partition_letter(text, 'u'), None);
}

#[test]
fn identifier_line_without_a_second_word_keeps_the_identifier() {
    let text = "Identifier {one}\nidentifier\ndevice vhd=[C:]\\a.vhdx\n";
    assert_eq!(extract_guid_for_vhd(text, "C:\\a.vhdx"), Some("{one}".to_string()));
}

#[test]
fn first_matching_block_wins() {
    let text = "identifier {one}\ndevice vhd=[C:]\\a.vhdx\nidentifier {two}\ndevice vhd=[c:]\\A.vhdx\n";
    assert_eq!(extract_guid_for_vhd(text, "C:\\a.vhdx"), Some("{one}".to_string()));
}

#[test]
fn last_line_needs_no_line_ending() {
    let text = "identifier {one}\r\ndevice partition=U:";
    assert_eq!(extract_guid_for_partition_letter(text, 'U'), Some("{one}".to_string()));
    assert_eq!(extract_guid_for_partition_letter("", 'u'), None);
}

#[test]
fn partition_letter_ignores_case() {
    let text = "identifier {one}\ndevice partition=U:\n";
    assert_eq!(extract_guid_for_partition_letter(text, 'u'), Some("{one}".to_string()));
    assert_eq!(extract_guid_for_partition_letter(text, 'U'), Some("{one}".to_string()));
    let text = "identifier {one}\nDEVICE PARTITION=u:\n";
    assert_eq!(extract_guid_for_partition_letter(text, 'U'), Some("{one}".to_string()));
}

#[test]
fn partition_letter_is_exact() {
    let text = "identifier {one}\ndevice partition=v:\n";
    assert_eq!(extract_guid_for_partition_letter(text, 'u'), None);
    let text = "identifier {one}\ndevice partition=u\n";
    assert_eq!(extract_guid_for_partition_letter(text, 'u'), None);
    let text = "identifier {one}\ndescription partition=u:\n";
    assert_eq!(extract_guid_for_partition_letter(text, 'u'), None);
}

#[test]
fn boot_files_install_invocation() {
    let inv = run_bcdboot("V:");
    assert_eq!(inv.tool, "bcdboot");
    assert_eq!(args_of(&inv), vec!["V:\\Windows", "/d"]);
    assert_eq!(inv.stdin, None);
    assert!(inv.elevated);
}

#[test]
fn enumeration_invocation() {
    let inv = bcdedit_enum_all();
    assert_eq!(inv.tool, "bcdedit");
    assert_eq!(args_of(&inv), vec!["/enum", "all", "/v"]);
    assert_eq!(inv.stdin, None);
    assert!(inv.elevated);
}

#[test]
fn mutation_invocations() {
    let inv = bcdedit_boot_sequence("{abc}");
    assert_eq!(inv.tool, "bcdedit");
    assert_eq!(args_of(&inv), vec!["/bootsequence", "{abc}"]);
    let inv = bcdedit_delete("{abc}");
    assert_eq!(inv.tool, "bcdedit");
    assert_eq!(args_of(&inv), vec!["/delete", "{abc}"]);
    let inv = bcdedit_set_description("{abc}", "My disk");
    assert_eq!(inv.tool, "bcdedit");
    assert_eq!(args_of(&inv), vec!["/set", "{abc}", "description", "My disk"]);
    assert!(inv.elevated);
    assert_eq!(inv.stdin, None);
}
