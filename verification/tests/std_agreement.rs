use boot_workspace::bcd::{
    extract_guid_for_partition_letter, extract_guid_for_vhd, normalize_vhd_path,
    parse_vhd_device_path,
};
use boot_workspace::recents::normalize_path;

// The same functions, written with the string methods of the standard
// library: the library has to agree with them on every input.

fn std_normalize_vhd(path: &str) -> String {
    let mut normalized = path.trim().trim_start_matches("\\\\?\\").replace('/', "\\");
    if normalized.starts_with('[') {
        if let Some(end) = normalized.find(']') {
            let drive = &normalized[1..end];
            let rest = &normalized[end + 1..];
            normalized = format!("{drive}{rest}");
        }
    }
    normalized.replace(['[', ']'], "").to_ascii_lowercase()
}

fn std_normalize_path(path: &str) -> String {
    path.trim().trim_start_matches("\\\\?\\").replace('/', "\\").to_ascii_lowercase()
}

fn std_parse(line: &str) -> Option<String> {
    let lower = line.to_ascii_lowercase();
    if !(lower.contains("device") || lower.contains("osdevice")) {
        return None;
    }
    let before_comma = line.split_once(',').map(|(h, _)| h).unwrap_or(line);
    let lower_before = before_comma.to_ascii_lowercase();
    let pos = lower_before.find("vhd=")?;
    let path_part = before_comma[pos + 4..].trim();
    let token = path_part.split_whitespace().next().unwrap_or("");
    if token.is_empty() {
        None
    } else {
        Some(token.to_string())
    }
}

fn std_guid_for_vhd(text: &str, vhd_path: &str) -> Option<String> {
    let mut current: Option<String> = None;
    let needle = std_normalize_vhd(vhd_path);
    for line in text.lines() {
        let lower = line.to_ascii_lowercase();
        if lower.starts_with("identifier") {
            if let Some(guid) = line.split_whitespace().nth(1) {
                current = Some(guid.trim().to_string());
            }
        }
        if let Some(dev_path) = std_parse(line) {
            if std_normalize_vhd(&dev_path) == needle {
                if let Some(guid) = &current {
                    return Some(guid.clone());
                }
            }
        }
    }
    None
}

fn std_guid_for_letter(text: &str, letter: char) -> Option<String> {
    let mut current: Option<String> = None;
    let needle = format!("partition={}:", letter.to_ascii_lowercase());
    for line in text.lines() {
        let lower = line.to_ascii_lowercase();
        if lower.starts_with("identifier") {
            if let Some(guid) = line.split_whitespace().nth(1) {
                current = Some(guid.trim().to_string());
            }
        }
        if (lower.contains("device") || lower.contains("osdevice")) && lower.contains(&needle) {
            if let Some(guid) = &current {
                return Some(guid.clone());
            }
        }
    }
    None
}

fn paths() -> Vec<String> {
    let mut all: Vec<String> = [
        "",
        " ",
        "C:\\x\\y",
        "c:/x/y",
        "\\\\?\\C:\\x\\y",
        "\\\\?\\\\\\?\\C:\\x",
        "\\\\?\\ c:\\x",
        " \\\\?\\c:\\x ",
        "//?/c:/x",
        "\\\\?",
        "\\\\?\\",
        "[C:]\\Diffs\\diff1.vhdx",
        "[C:\\Diffs",
        "]C:[\\Diffs",
        "x[y]z[w]",
        "[]",
        "[",
        "[ ] x",
        "[\\\\?\\]x",
        "\t\r\n C:\\A B\\c.VHDX \u{a0}\u{3000}",
        "\u{2003}\u{feff}x\u{200b}",
        "\u{c4}\u{d6}\u{dc}.vhdx",
        "Z:\\\u{130}\u{212a}",
        "@[`{AZaz",
    ]
    .iter()
    .map(|s| s.to_string())
    .collect();
    let more: Vec<String> = all.iter().map(|p| format!("\\\\?\\{p}")).collect();
    all.extend(more);
    all
}

fn lines() -> Vec<String> {
    let mut all: Vec<String> = [
        "",
        "device",
        "device vhd=",
        "device vhd= ",
        "device vhd=x",
        "DEVICE VHD=[C:]\\A.vhdx",
        "osdevice                vhd=[C:]\\Diffs\\d.vhdx,locate=custom:22000002",
        "osdevice  ,vhd=[C:]\\x",
        "dev ice vhd=x",
        "vhd=x device",
        "device vhd=  \t x y z",
        "device vhd=x vhd=y",
        "device vhd=x,vhd=y",
        "device\u{a0}vhd=\u{2003}a\u{3000}b",
        "device partition=C:",
        "device partition=[C:]\\path\\base.vhdx,locate=custom",
        "description partition=c: vhd=q",
        "identifier {a}",
        "Identifier\t{b}  trailing",
        "identifier",
        "identifier ",
        "identifierx {c}",
        " identifier {d}",
        "IDENTIFIER {e} device vhd=x",
        "identifier {f} device partition=u:",
        "identifier device vhd=x",
        "\u{130}dentifier {g}",
        "device vhd=x\r",
        "device vhd=x\rmore",
    ]
    .iter()
    .map(|s| s.to_string())
    .collect();
    let more: Vec<String> = paths().iter().map(|p| format!("device  vhd={p}")).collect();
    all.extend(more);
    all
}

fn texts() -> Vec<String> {
    let ls = lines();
    let mut all = Vec::new();
    for ending in ["\n", "\r\n", "\r", "\n\n", "\r\r\n", "\n\r"] {
        all.push(ls.join(ending));
        all.push(format!("{}{}", ls.join(ending), ending));
        let reversed: Vec<String> = ls.iter().rev().cloned().collect();
        all.push(reversed.join(ending));
    }
    for (i, a) in ls.iter().enumerate() {
        for j in [1usize, 7, 16, 17, 23] {
            let b = &ls[(i + j) % ls.len()];
            all.push(format!("{a}\n{b}"));
            all.push(format!("identifier {{k}}\r\n{a}\r\n{b}\r\n"));
        }
    }
    all
}

#[test]
fn vhd_normal_form_agrees_with_std() {
    for p in paths() {
        assert_eq!(normalize_vhd_path(&p), std_normalize_vhd(&p), "on {p:?}");
    }
}

#[test]
fn ledger_key_agrees_with_std() {
    for p in paths() {
        assert_eq!(normalize_path(&p), std_normalize_path(&p), "on {p:?}");
    }
}

#[test]
fn white_space_agrees_with_std() {
    for code in 0..0x3_0000u32 {
        if let Some(c) = char::from_u32(code) {
            let p = format!("{c}x{c}y {c}");
            assert_eq!(normalize_path(&p), std_normalize_path(&p), "on U+{code:04X}");
        }
    }
}

#[test]
fn lower_case_agrees_with_std() {
    for code in 0..0x3_0000u32 {
        if let Some(c) = char::from_u32(code) {
            let p = format!("a{c}");
            assert_eq!(normalize_vhd_path(&p), std_normalize_vhd(&p), "on U+{code:04X}");
        }
    }
}

#[test]
fn vhd_reference_agrees_with_std() {
    for l in lines() {
        assert_eq!(parse_vhd_device_path(&l), std_parse(&l), "on {l:?}");
    }
}

#[test]
fn search_by_vhd_agrees_with_std() {
    let queries = ["x", "C:\\A.vhdx", "[c:]/diffs/D.VHDX", "c:\\x", "", "y", "a"];
    for t in texts() {
        for q in queries {
            assert_eq!(extract_guid_for_vhd(&t, q), std_guid_for_vhd(&t, q), "on {t:?} for {q:?}");
        }
    }
}

#[test]
fn search_by_partition_letter_agrees_with_std() {
    for t in texts() {
        for letter in ['c', 'C', 'u', 'U', '[', '\r', '\n', ' ', '\u{c4}'] {
            assert_eq!(
                extract_guid_for_partition_letter(&t, letter),
                std_guid_for_letter(&t, letter),
                "on {t:?} for {letter:?}"
            );
        }
    }
}
