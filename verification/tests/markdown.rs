use fieldrun::mdfmt::{latex, render_line, BOLD};

/// Strips the ANSI escapes.
fn plain(s: &str) -> String {
    let mut out = String::new();
    let mut chars = s.chars().peekable();
    while let Some(c) = chars.next() {
        if c == '\x1b' {
            for x in chars.by_ref() {
                if x == 'm' {
                    break;
                }
            }
        } else {
            out.push(c);
        }
    }
    out
}

#[test]
fn inline_markdown() {
    assert!(fieldrun::mdfmt::inline("a **bold** b").contains(BOLD));
    assert_eq!(plain(&fieldrun::mdfmt::inline("a **bold** b")), "a bold b");
    assert_eq!(plain(&fieldrun::mdfmt::inline("an *em* word")), "an em word");
    assert_eq!(plain(&fieldrun::mdfmt::inline("call `f(x)` now")), "call f(x) now");
}

#[test]
fn inline_only_latexes_math() {
    assert_eq!(plain(&fieldrun::mdfmt::inline("<|im_end|>")), "<|im_end|>");
    assert_eq!(plain(&fieldrun::mdfmt::inline("set my_var^2 = foo_bar")), "set my_var^2 = foo_bar");
    assert_eq!(plain(&fieldrun::mdfmt::inline("value \\(x^2\\) and \\(\\theta\\)")), "value x² and θ");
    assert!(plain(&fieldrun::mdfmt::inline("inline $a_i$ here")).contains("aᵢ"));
    assert!(fieldrun::mdfmt::inline("**bold** then \\(x^2\\)").contains(BOLD));
}

#[test]
fn latex_inline_and_display() {
    assert_eq!(latex("\\( \\theta \\)").trim(), "θ");
    let disp = latex("\\[ e^{i\\theta} = \\cos(\\theta) + i\\sin(\\theta) \\]");
    assert!(disp.contains("cos(θ)"), "{disp}");
    assert!(disp.contains("sin(θ)"), "{disp}");
    assert!(disp.contains("e^(iθ)"), "{disp}");
}

#[test]
fn latex_scripts_and_frac() {
    assert_eq!(latex("x^2"), "x²");
    assert_eq!(latex("a_i"), "aᵢ");
    assert_eq!(latex("\\frac{a}{b}"), "(a)/(b)");
    assert_eq!(latex("2 \\times 3 \\leq 7"), "2 × 3 ≤ 7");
    assert_eq!(latex("\\sum_{n=0}^{\\infty}"), "∑ₙ₌₀^∞");
}

#[test]
fn blocks() {
    let mut code = false;
    assert!(render_line("# Title", &mut code).contains(BOLD));
    assert_eq!(plain(&render_line("   - item", &mut code)), "   • item");
    assert_eq!(plain(&render_line("3. **Form**:", &mut code)), "3. Form:");
    render_line("```rust", &mut code);
    assert!(code);
    assert!(render_line("let x = **not bold**;", &mut code).contains("**not bold**"));
    render_line("```", &mut code);
    assert!(!code);
}

#[test]
fn marks_without_a_partner_are_literal() {
    for s in ["**a", "a**", "__a", "~~a", "*a", "a ** b", "snake_case", "`a", "a __b c"] {
        assert_eq!(fieldrun::mdfmt::inline(s), s);
    }
    assert_eq!(fieldrun::mdfmt::inline("**a *b*"), "**a \x1b[3mb\x1b[23m");
    assert_eq!(fieldrun::mdfmt::inline("~~a~~ ~~b"), "\x1b[9ma\x1b[29m ~~b");
}
