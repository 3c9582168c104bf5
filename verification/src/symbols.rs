//! The replacements that LaTeX commands and scripts are transliterated to.
use vstd::prelude::*;
use crate::text::{chars_of, spells};

verus! {

/// The superscript form of a character, for those that have one.
pub open spec fn superscript_of(c: char) -> Option<char> {
    match c {
        '0' => Some('⁰'),
        '1' => Some('¹'),
        '2' => Some('²'),
        '3' => Some('³'),
        '4' => Some('⁴'),
        '5' => Some('⁵'),
        '6' => Some('⁶'),
        '7' => Some('⁷'),
        '8' => Some('⁸'),
        '9' => Some('⁹'),
        '+' => Some('⁺'),
        '-' => Some('⁻'),
        '=' => Some('⁼'),
        '(' => Some('⁽'),
        ')' => Some('⁾'),
        'n' => Some('ⁿ'),
        'i' => Some('ⁱ'),
        'a' => Some('ᵃ'),
        'b' => Some('ᵇ'),
        'c' => Some('ᶜ'),
        'd' => Some('ᵈ'),
        'e' => Some('ᵉ'),
        'x' => Some('ˣ'),
        'y' => Some('ʸ'),
        'T' => Some('ᵀ'),
        ' ' => Some(' '),
        _ => None,
    }
}

fn superscript(c: char) -> (r: Option<char>)
    ensures
        r == superscript_of(c),
{
    match c {
        '0' => Some('⁰'),
        '1' => Some('¹'),
        '2' => Some('²'),
        '3' => Some('³'),
        '4' => Some('⁴'),
        '5' => Some('⁵'),
        '6' => Some('⁶'),
        '7' => Some('⁷'),
        '8' => Some('⁸'),
        '9' => Some('⁹'),
        '+' => Some('⁺'),
        '-' => Some('⁻'),
        '=' => Some('⁼'),
        '(' => Some('⁽'),
        ')' => Some('⁾'),
        'n' => Some('ⁿ'),
        'i' => Some('ⁱ'),
        'a' => Some('ᵃ'),
        'b' => Some('ᵇ'),
        'c' => Some('ᶜ'),
        'd' => Some('ᵈ'),
        'e' => Some('ᵉ'),
        'x' => Some('ˣ'),
        'y' => Some('ʸ'),
        'T' => Some('ᵀ'),
        ' ' => Some(' '),
        _ => None,
    }
}

/// The subscript form of a character, for those that have one.
pub open spec fn subscript_of(c: char) -> Option<char> {
    match c {
        '0' => Some('₀'),
        '1' => Some('₁'),
        '2' => Some('₂'),
        '3' => Some('₃'),
        '4' => Some('₄'),
        '5' => Some('₅'),
        '6' => Some('₆'),
        '7' => Some('₇'),
        '8' => Some('₈'),
        '9' => Some('₉'),
        '+' => Some('₊'),
        '-' => Some('₋'),
        '=' => Some('₌'),
        '(' => Some('₍'),
        ')' => Some('₎'),
        'a' => Some('ₐ'),
        'e' => Some('ₑ'),
        'i' => Some('ᵢ'),
        'j' => Some('ⱼ'),
        'o' => Some('ₒ'),
        'x' => Some('ₓ'),
        'n' => Some('ₙ'),
        'm' => Some('ₘ'),
        't' => Some('ₜ'),
        ' ' => Some(' '),
        _ => None,
    }
}

fn subscript(c: char) -> (r: Option<char>)
    ensures
        r == subscript_of(c),
{
    match c {
        '0' => Some('₀'),
        '1' => Some('₁'),
        '2' => Some('₂'),
        '3' => Some('₃'),
        '4' => Some('₄'),
        '5' => Some('₅'),
        '6' => Some('₆'),
        '7' => Some('₇'),
        '8' => Some('₈'),
        '9' => Some('₉'),
        '+' => Some('₊'),
        '-' => Some('₋'),
        '=' => Some('₌'),
        '(' => Some('₍'),
        ')' => Some('₎'),
        'a' => Some('ₐ'),
        'e' => Some('ₑ'),
        'i' => Some('ᵢ'),
        'j' => Some('ⱼ'),
        'o' => Some('ₒ'),
        'x' => Some('ₓ'),
        'n' => Some('ₙ'),
        'm' => Some('ₘ'),
        't' => Some('ₜ'),
        ' ' => Some(' '),
        _ => None,
    }
}

/// The lower-case Greek letters.
pub open spec fn greek_lower_symbol(cmd: Seq<char>) -> Option<Seq<char>> {
    if cmd == "alpha"@ {
        Some("α"@)
    } else if cmd == "beta"@ {
        Some("β"@)
    } else if cmd == "gamma"@ {
        Some("γ"@)
    } else if cmd == "delta"@ {
        Some("δ"@)
    } else if cmd == "epsilon"@ {
        Some("ε"@)
    } else if cmd == "varepsilon"@ {
        Some("ε"@)
    } else if cmd == "zeta"@ {
        Some("ζ"@)
    } else if cmd == "eta"@ {
        Some("η"@)
    } else if cmd == "theta"@ {
        Some("θ"@)
    } else if cmd == "vartheta"@ {
        Some("ϑ"@)
    } else if cmd == "iota"@ {
        Some("ι"@)
    } else if cmd == "kappa"@ {
        Some("κ"@)
    } else if cmd == "lambda"@ {
        Some("λ"@)
    } else if cmd == "mu"@ {
        Some("μ"@)
    } else if cmd == "nu"@ {
        Some("ν"@)
    } else if cmd == "xi"@ {
        Some("ξ"@)
    } else if cmd == "pi"@ {
        Some("π"@)
    } else if cmd == "rho"@ {
        Some("ρ"@)
    } else if cmd == "sigma"@ {
        Some("σ"@)
    } else if cmd == "tau"@ {
        Some("τ"@)
    } else if cmd == "upsilon"@ {
        Some("υ"@)
    } else if cmd == "phi"@ {
        Some("φ"@)
    } else if cmd == "varphi"@ {
        Some("φ"@)
    } else if cmd == "chi"@ {
        Some("χ"@)
    } else if cmd == "psi"@ {
        Some("ψ"@)
    } else if cmd == "omega"@ {
        Some("ω"@)
    } else {
        None
    }
}

fn greek_lower(cmd: &[char]) -> (r: Option<&'static str>)
    ensures
        match r {
            Some(t) => greek_lower_symbol(cmd@) == Some(t@),
            None => greek_lower_symbol(cmd@) is None,
        },
{
    if spells(cmd, "alpha") {
        return Some("α");
    }
    if spells(cmd, "beta") {
        return Some("β");
    }
    if spells(cmd, "gamma") {
        return Some("γ");
    }
    if spells(cmd, "delta") {
        return Some("δ");
    }
    if spells(cmd, "epsilon") {
        return Some("ε");
    }
    if spells(cmd, "varepsilon") {
        return Some("ε");
    }
    if spells(cmd, "zeta") {
        return Some("ζ");
    }
    if spells(cmd, "eta") {
        return Some("η");
    }
    if spells(cmd, "theta") {
        return Some("θ");
    }
    if spells(cmd, "vartheta") {
        return Some("ϑ");
    }
    if spells(cmd, "iota") {
        return Some("ι");
    }
    if spells(cmd, "kappa") {
        return Some("κ");
    }
    if spells(cmd, "lambda") {
        return Some("λ");
    }
    if spells(cmd, "mu") {
        return Some("μ");
    }
    if spells(cmd, "nu") {
        return Some("ν");
    }
    if spells(cmd, "xi") {
        return Some("ξ");
    }
    if spells(cmd, "pi") {
        return Some("π");
    }
    if spells(cmd, "rho") {
        return Some("ρ");
    }
    if spells(cmd, "sigma") {
        return Some("σ");
    }
    if spells(cmd, "tau") {
        return Some("τ");
    }
    if spells(cmd, "upsilon") {
        return Some("υ");
    }
    if spells(cmd, "phi") {
        return Some("φ");
    }
    if spells(cmd, "varphi") {
        return Some("φ");
    }
    if spells(cmd, "chi") {
        return Some("χ");
    }
    if spells(cmd, "psi") {
        return Some("ψ");
    }
    if spells(cmd, "omega") {
        return Some("ω");
    }
    None
}

/// The upper-case Greek letters.
pub open spec fn greek_upper_symbol(cmd: Seq<char>) -> Option<Seq<char>> {
    if cmd == "Gamma"@ {
        Some("Γ"@)
    } else if cmd == "Delta"@ {
        Some("Δ"@)
    } else if cmd == "Theta"@ {
        Some("Θ"@)
    } else if cmd == "Lambda"@ {
        Some("Λ"@)
    } else if cmd == "Xi"@ {
        Some("Ξ"@)
    } else if cmd == "Pi"@ {
        Some("Π"@)
    } else if cmd == "Sigma"@ {
        Some("Σ"@)
    } else if cmd == "Phi"@ {
        Some("Φ"@)
    } else if cmd == "Psi"@ {
        Some("Ψ"@)
    } else if cmd == "Omega"@ {
        Some("Ω"@)
    } else {
        None
    }
}

fn greek_upper(cmd: &[char]) -> (r: Option<&'static str>)
    ensures
        match r {
            Some(t) => greek_upper_symbol(cmd@) == Some(t@),
            None => greek_upper_symbol(cmd@) is None,
        },
{
    if spells(cmd, "Gamma") {
        return Some("Γ");
    }
    if spells(cmd, "Delta") {
        return Some("Δ");
    }
    if spells(cmd, "Theta") {
        return Some("Θ");
    }
    if spells(cmd, "Lambda") {
        return Some("Λ");
    }
    if spells(cmd, "Xi") {
        return Some("Ξ");
    }
    if spells(cmd, "Pi") {
        return Some("Π");
    }
    if spells(cmd, "Sigma") {
        return Some("Σ");
    }
    if spells(cmd, "Phi") {
        return Some("Φ");
    }
    if spells(cmd, "Psi") {
        return Some("Ψ");
    }
    if spells(cmd, "Omega") {
        return Some("Ω");
    }
    None
}

/// Operators, relations, arrows and other signs.
pub open spec fn relation_symbol(cmd: Seq<char>) -> Option<Seq<char>> {
    if cmd == "times"@ {
        Some("×"@)
    } else if cmd == "cdot"@ {
        Some("·"@)
    } else if cmd == "div"@ {
        Some("÷"@)
    } else if cmd == "pm"@ {
        Some("±"@)
    } else if cmd == "mp"@ {
        Some("∓"@)
    } else if cmd == "ast"@ {
        Some("∗"@)
    } else if cmd == "leq"@ {
        Some("≤"@)
    } else if cmd == "le"@ {
        Some("≤"@)
    } else if cmd == "geq"@ {
        Some("≥"@)
    } else if cmd == "ge"@ {
        Some("≥"@)
    } else if cmd == "neq"@ {
        Some("≠"@)
    } else if cmd == "ne"@ {
        Some("≠"@)
    } else if cmd == "approx"@ {
        Some("≈"@)
    } else if cmd == "equiv"@ {
        Some("≡"@)
    } else if cmd == "sim"@ {
        Some("∼"@)
    } else if cmd == "propto"@ {
        Some("∝"@)
    } else if cmd == "ll"@ {
        Some("≪"@)
    } else if cmd == "gg"@ {
        Some("≫"@)
    } else if cmd == "rightarrow"@ {
        Some("→"@)
    } else if cmd == "to"@ {
        Some("→"@)
    } else if cmd == "leftarrow"@ {
        Some("←"@)
    } else if cmd == "Rightarrow"@ {
        Some("⇒"@)
    } else if cmd == "Leftarrow"@ {
        Some("⇐"@)
    } else if cmd == "leftrightarrow"@ {
        Some("↔"@)
    } else if cmd == "mapsto"@ {
        Some("↦"@)
    } else if cmd == "uparrow"@ {
        Some("↑"@)
    } else if cmd == "downarrow"@ {
        Some("↓"@)
    } else if cmd == "infty"@ {
        Some("∞"@)
    } else if cmd == "partial"@ {
        Some("∂"@)
    } else if cmd == "nabla"@ {
        Some("∇"@)
    } else if cmd == "sum"@ {
        Some("∑"@)
    } else if cmd == "prod"@ {
        Some("∏"@)
    } else if cmd == "int"@ {
        Some("∫"@)
    } else if cmd == "oint"@ {
        Some("∮"@)
    } else if cmd == "sqrt"@ {
        Some("√"@)
    } else if cmd == "angle"@ {
        Some("∠"@)
    } else if cmd == "perp"@ {
        Some("⊥"@)
    } else if cmd == "parallel"@ {
        Some("∥"@)
    } else if cmd == "in"@ {
        Some("∈"@)
    } else if cmd == "notin"@ {
        Some("∉"@)
    } else if cmd == "ni"@ {
        Some("∋"@)
    } else if cmd == "subset"@ {
        Some("⊂"@)
    } else if cmd == "subseteq"@ {
        Some("⊆"@)
    } else if cmd == "supset"@ {
        Some("⊃"@)
    } else if cmd == "supseteq"@ {
        Some("⊇"@)
    } else if cmd == "cup"@ {
        Some("∪"@)
    } else if cmd == "cap"@ {
        Some("∩"@)
    } else if cmd == "emptyset"@ {
        Some("∅"@)
    } else if cmd == "varnothing"@ {
        Some("∅"@)
    } else if cmd == "forall"@ {
        Some("∀"@)
    } else if cmd == "exists"@ {
        Some("∃"@)
    } else if cmd == "neg"@ {
        Some("¬"@)
    } else if cmd == "land"@ {
        Some("∧"@)
    } else if cmd == "lor"@ {
        Some("∨"@)
    } else if cmd == "oplus"@ {
        Some("⊕"@)
    } else if cmd == "otimes"@ {
        Some("⊗"@)
    } else if cmd == "star"@ {
        Some("⋆"@)
    } else if cmd == "bullet"@ {
        Some("•"@)
    } else if cmd == "dots"@ {
        Some("…"@)
    } else if cmd == "ldots"@ {
        Some("…"@)
    } else if cmd == "cdots"@ {
        Some("⋯"@)
    } else if cmd == "Re"@ {
        Some("ℜ"@)
    } else if cmd == "Im"@ {
        Some("ℑ"@)
    } else if cmd == "hbar"@ {
        Some("ℏ"@)
    } else if cmd == "ell"@ {
        Some("ℓ"@)
    } else if cmd == "aleph"@ {
        Some("ℵ"@)
    } else if cmd == "deg"@ {
        Some("°"@)
    } else {
        None
    }
}

fn relation(cmd: &[char]) -> (r: Option<&'static str>)
    ensures
        match r {
            Some(t) => relation_symbol(cmd@) == Some(t@),
            None => relation_symbol(cmd@) is None,
        },
{
    if spells(cmd, "times") {
        return Some("×");
    }
    if spells(cmd, "cdot") {
        return Some("·");
    }
    if spells(cmd, "div") {
        return Some("÷");
    }
    if spells(cmd, "pm") {
        return Some("±");
    }
    if spells(cmd, "mp") {
        return Some("∓");
    }
    if spells(cmd, "ast") {
        return Some("∗");
    }
    if spells(cmd, "leq") {
        return Some("≤");
    }
    if spells(cmd, "le") {
        return Some("≤");
    }
    if spells(cmd, "geq") {
        return Some("≥");
    }
    if spells(cmd, "ge") {
        return Some("≥");
    }
    if spells(cmd, "neq") {
        return Some("≠");
    }
    if spells(cmd, "ne") {
        return Some("≠");
    }
    if spells(cmd, "approx") {
        return Some("≈");
    }
    if spells(cmd, "equiv") {
        return Some("≡");
    }
    if spells(cmd, "sim") {
        return Some("∼");
    }
    if spells(cmd, "propto") {
        return Some("∝");
    }
    if spells(cmd, "ll") {
        return Some("≪");
    }
    if spells(cmd, "gg") {
        return Some("≫");
    }
    if spells(cmd, "rightarrow") {
        return Some("→");
    }
    if spells(cmd, "to") {
        return Some("→");
    }
    if spells(cmd, "leftarrow") {
        return Some("←");
    }
    if spells(cmd, "Rightarrow") {
        return Some("⇒");
    }
    if spells(cmd, "Leftarrow") {
        return Some("⇐");
    }
    if spells(cmd, "leftrightarrow") {
        return Some("↔");
    }
    if spells(cmd, "mapsto") {
        return Some("↦");
    }
    if spells(cmd, "uparrow") {
        return Some("↑");
    }
    if spells(cmd, "downarrow") {
        return Some("↓");
    }
    if spells(cmd, "infty") {
        return Some("∞");
    }
    if spells(cmd, "partial") {
        return Some("∂");
    }
    if spells(cmd, "nabla") {
        return Some("∇");
    }
    if spells(cmd, "sum") {
        return Some("∑");
    }
    if spells(cmd, "prod") {
        return Some("∏");
    }
    if spells(cmd, "int") {
        return Some("∫");
    }
    if spells(cmd, "oint") {
        return Some("∮");
    }
    if spells(cmd, "sqrt") {
        return Some("√");
    }
    if spells(cmd, "angle") {
        return Some("∠");
    }
    if spells(cmd, "perp") {
        return Some("⊥");
    }
    if spells(cmd, "parallel") {
        return Some("∥");
    }
    if spells(cmd, "in") {
        return Some("∈");
    }
    if spells(cmd, "notin") {
        return Some("∉");
    }
    if spells(cmd, "ni") {
        return Some("∋");
    }
    if spells(cmd, "subset") {
        return Some("⊂");
    }
    if spells(cmd, "subseteq") {
        return Some("⊆");
    }
    if spells(cmd, "supset") {
        return Some("⊃");
    }
    if spells(cmd, "supseteq") {
        return Some("⊇");
    }
    if spells(cmd, "cup") {
        return Some("∪");
    }
    if spells(cmd, "cap") {
        return Some("∩");
    }
    if spells(cmd, "emptyset") {
        return Some("∅");
    }
    if spells(cmd, "varnothing") {
        return Some("∅");
    }
    if spells(cmd, "forall") {
        return Some("∀");
    }
    if spells(cmd, "exists") {
        return Some("∃");
    }
    if spells(cmd, "neg") {
        return Some("¬");
    }
    if spells(cmd, "land") {
        return Some("∧");
    }
    if spells(cmd, "lor") {
        return Some("∨");
    }
    if spells(cmd, "oplus") {
        return Some("⊕");
    }
    if spells(cmd, "otimes") {
        return Some("⊗");
    }
    if spells(cmd, "star") {
        return Some("⋆");
    }
    if spells(cmd, "bullet") {
        return Some("•");
    }
    if spells(cmd, "dots") {
        return Some("…");
    }
    if spells(cmd, "ldots") {
        return Some("…");
    }
    if spells(cmd, "cdots") {
        return Some("⋯");
    }
    if spells(cmd, "Re") {
        return Some("ℜ");
    }
    if spells(cmd, "Im") {
        return Some("ℑ");
    }
    if spells(cmd, "hbar") {
        return Some("ℏ");
    }
    if spells(cmd, "ell") {
        return Some("ℓ");
    }
    if spells(cmd, "aleph") {
        return Some("ℵ");
    }
    if spells(cmd, "deg") {
        return Some("°");
    }
    None
}

/// Function names keep their word; the grouping and font commands leave nothing, or blanks.
pub open spec fn function_name_symbol(cmd: Seq<char>) -> Option<Seq<char>> {
    if cmd == "cos"@ {
        Some("cos"@)
    } else if cmd == "sin"@ {
        Some("sin"@)
    } else if cmd == "tan"@ {
        Some("tan"@)
    } else if cmd == "sec"@ {
        Some("sec"@)
    } else if cmd == "csc"@ {
        Some("csc"@)
    } else if cmd == "cot"@ {
        Some("cot"@)
    } else if cmd == "log"@ {
        Some("log"@)
    } else if cmd == "ln"@ {
        Some("ln"@)
    } else if cmd == "exp"@ {
        Some("exp"@)
    } else if cmd == "lim"@ {
        Some("lim"@)
    } else if cmd == "max"@ {
        Some("max"@)
    } else if cmd == "min"@ {
        Some("min"@)
    } else if cmd == "det"@ {
        Some("det"@)
    } else if cmd == "gcd"@ {
        Some("gcd"@)
    } else if cmd == "arg"@ {
        Some("arg"@)
    } else if cmd == "dim"@ {
        Some("dim"@)
    } else if cmd == "ker"@ {
        Some("ker"@)
    } else if cmd == "deg2"@ {
        Some("deg"@)
    } else if cmd == "left"@ {
        Some(""@)
    } else if cmd == "right"@ {
        Some(""@)
    } else if cmd == "quad"@ {
        Some("  "@)
    } else if cmd == "qquad"@ {
        Some("    "@)
    } else if cmd == "text"@ {
        Some(""@)
    } else if cmd == "mathrm"@ {
        Some(""@)
    } else if cmd == "mathbf"@ {
        Some(""@)
    } else {
        None
    }
}

fn function_name(cmd: &[char]) -> (r: Option<&'static str>)
    ensures
        match r {
            Some(t) => function_name_symbol(cmd@) == Some(t@),
            None => function_name_symbol(cmd@) is None,
        },
{
    if spells(cmd, "cos") {
        return Some("cos");
    }
    if spells(cmd, "sin") {
        return Some("sin");
    }
    if spells(cmd, "tan") {
        return Some("tan");
    }
    if spells(cmd, "sec") {
        return Some("sec");
    }
    if spells(cmd, "csc") {
        return Some("csc");
    }
    if spells(cmd, "cot") {
        return Some("cot");
    }
    if spells(cmd, "log") {
        return Some("log");
    }
    if spells(cmd, "ln") {
        return Some("ln");
    }
    if spells(cmd, "exp") {
        return Some("exp");
    }
    if spells(cmd, "lim") {
        return Some("lim");
    }
    if spells(cmd, "max") {
        return Some("max");
    }
    if spells(cmd, "min") {
        return Some("min");
    }
    if spells(cmd, "det") {
        return Some("det");
    }
    if spells(cmd, "gcd") {
        return Some("gcd");
    }
    if spells(cmd, "arg") {
        return Some("arg");
    }
    if spells(cmd, "dim") {
        return Some("dim");
    }
    if spells(cmd, "ker") {
        return Some("ker");
    }
    if spells(cmd, "deg2") {
        return Some("deg");
    }
    if spells(cmd, "left") {
        return Some("");
    }
    if spells(cmd, "right") {
        return Some("");
    }
    if spells(cmd, "quad") {
        return Some("  ");
    }
    if spells(cmd, "qquad") {
        return Some("    ");
    }
    if spells(cmd, "text") {
        return Some("");
    }
    if spells(cmd, "mathrm") {
        return Some("");
    }
    if spells(cmd, "mathbf") {
        return Some("");
    }
    None
}

/// The super- or subscript form of a text, when every character of it has one.
pub open spec fn script_form(s: Seq<char>, sub: bool) -> Option<Seq<char>>
    decreases s.len(),
{
    if s.len() == 0 {
        Some(Seq::empty())
    } else {
        let c = if sub { subscript_of(s.last()) } else { superscript_of(s.last()) };
        match (script_form(s.drop_last(), sub), c) {
            (Some(t), Some(d)) => Some(t.push(d)),
            _ => None,
        }
    }
}

proof fn no_script_form(s: Seq<char>, sub: bool, k: int)
    requires
        0 <= k <= s.len(),
        script_form(s.take(k), sub) is None,
    ensures
        script_form(s, sub) is None,
    decreases s.len() - k,
{
    if k < s.len() {
        assert(s.take(k + 1).drop_last() =~= s.take(k));
        no_script_form(s, sub, k + 1);
    } else {
        assert(s.take(k) =~= s);
    }
}

/// Converts a text to its super- or subscript form, or `None` when a character has none.
pub fn to_script(s: &str, sub: bool) -> (r: Option<String>)
    ensures
        match r {
            Some(t) => script_form(s@, sub) == Some(t@),
            None => script_form(s@, sub) is None,
        },
{
    let v = chars_of(s);
    let mut out = String::new();
    for i in 0..v.len()
        invariant
            v@ == s@,
            script_form(v@.take(i as int), sub) == Some(out@),
    {
        let d = if sub { subscript(v[i]) } else { superscript(v[i]) };
        assert(v@.take(i + 1).drop_last() =~= v@.take(i as int));
        match d {
            Some(c) => out.push(c),
            None => {
                proof {
                    no_script_form(v@, sub, i + 1);
                }
                return None;
            },
        }
    }
    assert(v@.take(v.len() as int) =~= v@);
    Some(out)
}

/// The replacement for a command name (without its backslash), for those that have one.
#[verifier::opaque]
pub open spec fn symbol(cmd: Seq<char>) -> Option<Seq<char>> {
    if greek_lower_symbol(cmd) is Some {
        greek_lower_symbol(cmd)
    } else if greek_upper_symbol(cmd) is Some {
        greek_upper_symbol(cmd)
    } else if relation_symbol(cmd) is Some {
        relation_symbol(cmd)
    } else {
        function_name_symbol(cmd)
    }
}

/// Maps a command name to its replacement, or `None` to fall back on the word itself.
pub fn command(cmd: &[char]) -> (r: Option<&'static str>)
    ensures
        match r {
            Some(t) => symbol(cmd@) == Some(t@),
            None => symbol(cmd@) is None,
        },
{
    reveal(symbol);
    if let Some(t) = greek_lower(cmd) {
        return Some(t);
    }
    if let Some(t) = greek_upper(cmd) {
        return Some(t);
    }
    if let Some(t) = relation(cmd) {
        return Some(t);
    }
    function_name(cmd)
}

} // verus!
