use slaunch::plugins::math::MathPlugin;
use slaunch::plugins::{Entry, EntryKind, Plugin};

/// The value as the calculator shows it: whole floats without a decimal point.
fn display(value: &evalexpr::Value) -> String {
    match value {
        evalexpr::Value::Float(f) => {
            if f.fract() == 0.0 && f.abs() < 1e15 {
                format!("{}", *f as i64)
            } else {
                format!("{f}")
            }
        }
        evalexpr::Value::Int(i) => format!("{i}"),
        other => other.to_string(),
    }
}

fn query(input: &str) -> Vec<Entry> {
    let mut out = Vec::new();
    if let Some(expr) = MathPlugin::expression(input) {
        if let Ok(value) = evalexpr::eval(&expr) {
            out.push(MathPlugin::result_entry(&expr, &display(&value)));
        }
    }
    out
}

#[test]
fn evaluates_simple_expression() {
    let out = query("=1+2");
    assert_eq!(out.len(), 1);
    assert_eq!(out[0].name, "3");
}

#[test]
fn strips_leading_equals_and_whitespace() {
    let out = query("=  2 * 3  ");
    assert_eq!(out.len(), 1);
    assert_eq!(out[0].name, "6");
}

#[test]
fn whole_number_float_result_drops_decimal_point() {
    let out = query("=6/2");
    assert_eq!(out.len(), 1);
    assert_eq!(out[0].name, "3");
}

#[test]
fn fractional_float_result_keeps_decimals() {
    let out = query("=5.0/2");
    assert_eq!(out.len(), 1);
    assert_eq!(out[0].name, "2.5");
}

#[test]
fn empty_expression_produces_no_entry() {
    assert!(query("=").is_empty());
    assert!(query("=   ").is_empty());
}

#[test]
fn invalid_expression_produces_no_entry() {
    assert!(query("=this is not math").is_empty());
}

#[test]
fn description_shows_the_normalized_expression() {
    let out = query("=1+2");
    assert_eq!(out[0].description.as_deref(), Some("= 1+2"));
}

#[test]
fn entry_kind_carries_the_formatted_value_for_clipboard_copy() {
    let out = query("=1+2");
    match &out[0].kind {
        EntryKind::MathResult { value } => assert_eq!(value, "3"),
        _ => panic!("expected MathResult kind"),
    }
}

#[test]
fn expression_strips_every_leading_equals_sign() {
    assert_eq!(MathPlugin::expression("== 4*4 ").as_deref(), Some("4*4"));
    assert_eq!(MathPlugin::expression("=  = 1"), Some("= 1".to_string()));
    assert_eq!(MathPlugin::expression("==="), None);
}

#[test]
fn result_entry_has_the_calculator_icon() {
    let e = MathPlugin::result_entry("1+2", "3");
    assert_eq!(e.icon.as_deref(), Some("accessories-calculator"));
    assert_eq!(e.priority, 0);
}

#[test]
fn math_launch_copies_the_value_with_the_clipboard_command() {
    let plugin = MathPlugin::new(vec!["xclip".to_string(), "-selection".to_string()]);
    let e = MathPlugin::result_entry("1+2", "3");
    let launches = plugin.launch(&e);
    assert_eq!(launches.len(), 1);
    assert_eq!(launches[0].program, "xclip");
    assert_eq!(launches[0].args, vec!["-selection", "3"]);
    assert_eq!(plugin.name(), "math");
}

#[test]
fn math_launch_without_clipboard_command_runs_nothing() {
    let plugin = MathPlugin::new(Vec::new());
    let e = MathPlugin::result_entry("1+2", "3");
    assert!(plugin.launch(&e).is_empty());
}
