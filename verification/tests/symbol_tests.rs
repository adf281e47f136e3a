use fx_store::symbols::{split_symbol, SymbolRegistry, MAX_SYMBOLS};

fn split(name: &str) -> (String, String) {
    split_symbol(name)
}

fn pair(base: &str, quote: &str) -> (String, String) {
    (base.to_string(), quote.to_string())
}

#[test]
fn names_with_one_slash_split_on_it() {
    assert_eq!(split("EUR/USD"), pair("EUR", "USD"));
    assert_eq!(split("BTC/USDT"), pair("BTC", "USDT"));
    assert_eq!(split("/USD"), pair("", "USD"));
    assert_eq!(split("EUR/"), pair("EUR", ""));
    assert_eq!(split("/"), pair("", ""));
}

#[test]
fn other_names_split_after_three_characters() {
    assert_eq!(split("EURUSD"), pair("EUR", "USD"));
    assert_eq!(split("XAUUSDX"), pair("XAU", "USDX"));
    assert_eq!(split("ABC"), pair("ABC", ""));
    assert_eq!(split("AB"), pair("AB", ""));
    assert_eq!(split(""), pair("", ""));
    assert_eq!(split("A/B/C"), pair("A/B", "/C"));
    assert_eq!(split("//"), pair("//", ""));
}

#[test]
fn split_counts_characters_not_bytes() {
    assert_eq!(split("äöüßxy"), pair("äöü", "ßxy"));
    assert_eq!(split("é/ü"), pair("é", "ü"));
}

#[test]
fn registry_hands_out_handles_in_order() {
    let mut registry = SymbolRegistry::new();
    assert_eq!(registry.len(), 0);
    assert_eq!(registry.resolve("EURUSD"), None);
    assert!(registry.can_intern("EURUSD"));
    assert_eq!(registry.intern("EURUSD"), 0);
    assert_eq!(registry.intern("GBPUSD"), 1);
    assert_eq!(registry.intern("EURUSD"), 0);
    assert_eq!(registry.intern("USDJPY"), 2);
    assert_eq!(registry.intern("GBPUSD"), 1);
    assert_eq!(registry.len(), 3);
    assert_eq!(registry.resolve("USDJPY"), Some(2));
    assert_eq!(registry.resolve("usdjpy"), None);
}

#[test]
fn registry_lists_every_name_once() {
    let mut registry = SymbolRegistry::new();
    assert!(registry.list().is_empty());
    for name in ["C", "A", "B", "A", "C"] {
        registry.intern(name);
    }
    let mut names = registry.list();
    names.sort();
    assert_eq!(names, vec!["A".to_string(), "B".to_string(), "C".to_string()]);
}

#[test]
fn registry_takes_any_name() {
    let mut registry = SymbolRegistry::new();
    assert_eq!(registry.intern(""), 0);
    assert_eq!(registry.intern("a/b/c"), 1);
    assert_eq!(registry.intern("€"), 2);
    assert_eq!(registry.resolve(""), Some(0));
    assert_eq!(registry.resolve("€"), Some(2));
}

#[test]
fn registry_is_full_after_all_handles() {
    let mut registry = SymbolRegistry::new();
    for i in 0..MAX_SYMBOLS {
        let name = format!("S{}", i);
        assert!(registry.can_intern(&name));
        assert_eq!(registry.intern(&name) as usize, i);
    }
    assert_eq!(registry.len(), MAX_SYMBOLS);
    assert!(!registry.can_intern("ONE MORE"));
    assert!(registry.can_intern("S0"));
    assert!(registry.can_intern("S65535"));
    assert_eq!(registry.intern("S65535"), 65535);
}

#[test]
fn registry_keeps_name_base_and_quote() {
    let mut registry = SymbolRegistry::new();
    registry.intern("EURUSD");
    registry.intern("BTC/USDT");
    let eur = registry.lookup("EURUSD").unwrap();
    assert_eq!((eur.id, eur.name.as_str(), eur.base.as_str(), eur.quote.as_str()), (0, "EURUSD", "EUR", "USD"));
    let btc = registry.lookup("BTC/USDT").unwrap();
    assert_eq!((btc.id, btc.name.as_str(), btc.base.as_str(), btc.quote.as_str()), (1, "BTC/USDT", "BTC", "USDT"));
    assert!(registry.lookup("BTCUSDT").is_none());
    let copy = btc.copy();
    assert_eq!((copy.id, copy.name, copy.base, copy.quote), (btc.id, btc.name, btc.base, btc.quote));
}
