use i18n_core::{resolve_value, IndexBuilder, Locale, ProjectConfig, ResolvedValue, SourceFile};

#[test]
fn mg_shop_linked_payfip_resolves() {
    // A Nuxt workspace with one folder per locale whose files wrap their keys
    // under their own name (`global.json` holding `{"global": {...}}`).
    let config = ProjectConfig {
        locale_paths: vec!["front/i18n/locales".into()],
        source_locale: Some("fr".into()),
        ..ProjectConfig::default()
    };
    let sources = vec![SourceFile {
        dir: "/shop/front/i18n/locales".to_string(),
        path: "/shop/front/i18n/locales/fr/global.json".to_string(),
        content: r#"{"global":{"providers":{"payfip":"PayFiP"},"paymentModes":{"payfip":"@:global.providers.payfip"}}}"#
            .to_string(),
    }];
    let index = IndexBuilder::new("/shop", &config).build(&sources).expect("build");
    let fr = Locale::new("fr");
    let values = index.lookup("global.paymentModes.payfip");
    let alias = values.get(&fr).expect("alias");
    assert_eq!(alias.value, "@:global.providers.payfip");
    match resolve_value(&index, &fr, &alias.value) {
        ResolvedValue::Linked { display, .. } => assert_eq!(display, "PayFiP"),
        other => panic!("{other:?}"),
    }
    let display = index.display_for_locale(&fr, &alias.value);
    assert_eq!(display, "PayFiP");
}
