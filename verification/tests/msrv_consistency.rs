//! The `key = "value"` reader used to compare toolchain declarations across
//! configuration files.

fn extract_quoted_value(text: &str, key: &str) -> Option<String> {
    for line in text.lines() {
        let trimmed = line.trim();
        if let Some(rest) = trimmed.strip_prefix(key) {
            let rest = rest.trim_start();
            if let Some(rest) = rest.strip_prefix('=') {
                let rest = rest.trim();
                if let Some(rest) = rest.strip_prefix('"') {
                    if let Some(end) = rest.find('"') {
                        return Some(rest[..end].to_string());
                    }
                }
            }
        }
    }
    None
}

#[test]
fn extract_quoted_value_returns_none_for_missing_key() {
    let text = "channel = \"1.97.1\"\ncomponents = [\"rustfmt\"]\n";
    assert_eq!(extract_quoted_value(text, "does-not-exist"), None);
}

#[test]
fn extract_quoted_value_ignores_key_substrings() {
    // A key like `msrv` should not accidentally match `some-msrv-like-key`.
    let text = "some-msrv-like-key = \"9.9.9\"\nmsrv = \"1.97.1\"\n";
    assert_eq!(
        extract_quoted_value(text, "msrv"),
        Some("1.97.1".to_string())
    );
}
