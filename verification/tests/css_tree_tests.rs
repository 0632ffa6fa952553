use photonic_handlers::css_tree::jsx_to_css;

#[test]
fn static_tailwind_component_becomes_css_tree() {
    let css = jsx_to_css(r#"<div className="w-[320px] h-[160px] bg-slate-900 rounded-xl"><button className="w-[120px] h-[40px] bg-blue-500 rounded" /></div>"#).unwrap();
    assert!(css.contains(".component"));
    assert!(css.contains(".component > .node-2"));
    assert!(css.contains("background:#3b82f6"));
}

#[test]
fn dynamic_jsx_is_rejected_not_ignored() {
    assert!(jsx_to_css("<div>{label}</div>").is_err());
}

#[test]
fn text_is_rejected_not_silently_dropped() {
    assert!(jsx_to_css("<div>Save</div>").is_err());
}

#[test]
fn every_element_has_its_own_rule() {
    let element = |n: usize| {
        let inner = r#"<p className="w-[2px] h-[2px] bg-white" />"#.repeat(n - 1);
        format!(r#"<div className="w-[9px] h-[9px]">{inner}</div>"#)
    };
    for n in [1, 2, 7, 512] {
        let css = jsx_to_css(&element(n)).unwrap();
        assert_eq!(css.matches('{').count(), n);
    }
    assert!(jsx_to_css(&element(513)).is_err());
    assert!(jsx_to_css("").is_err());
}
