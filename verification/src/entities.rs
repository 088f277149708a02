//! The named character references that text and link parts may hold.
use vstd::prelude::*;

verus! {

/// `a` holds the same characters as `s`.
pub fn chars_eq_str(a: &[char], s: &str) -> (r: bool)
    ensures
        r == (a@ == s@),
{
    let n = s.unicode_len();
    if a.len() != n {
        return false;
    }
    let mut i: usize = 0;
    while i < n
        invariant
            n == s@.len(),
            a@.len() == n,
            i <= n,
            forall|k: int| 0 <= k < i ==> a@[k] == s@[k],
        decreases n - i,
    {
        if a[i] != s.get_char(i) {
            return false;
        }
        i = i + 1;
    }
    assert(a@ =~= s@);
    true
}

/// The characters that the named reference `&name;` stands for, if `name` is known.
pub open spec fn spec_named_entity(name: Seq<char>) -> Option<Seq<char>> {
    if name.len() == 0 {
        None
    } else if name[0] == 'A' {
        spec_named_entity_upper_a(name)
    } else if name[0] == 'B' {
        spec_named_entity_upper_b(name)
    } else if name[0] == 'C' {
        spec_named_entity_upper_c(name)
    } else if name[0] == 'D' {
        spec_named_entity_upper_d(name)
    } else if name[0] == 'E' {
        spec_named_entity_upper_e(name)
    } else if name[0] == 'G' {
        spec_named_entity_upper_g(name)
    } else if name[0] == 'H' {
        spec_named_entity_upper_h(name)
    } else if name[0] == 'I' {
        spec_named_entity_upper_i(name)
    } else if name[0] == 'K' {
        spec_named_entity_upper_k(name)
    } else if name[0] == 'L' {
        spec_named_entity_upper_l(name)
    } else if name[0] == 'M' {
        spec_named_entity_upper_m(name)
    } else if name[0] == 'N' {
        spec_named_entity_upper_n(name)
    } else if name[0] == 'O' {
        spec_named_entity_upper_o(name)
    } else if name[0] == 'P' {
        spec_named_entity_upper_p(name)
    } else if name[0] == 'Q' {
        spec_named_entity_upper_q(name)
    } else if name[0] == 'R' {
        spec_named_entity_upper_r(name)
    } else if name[0] == 'S' {
        spec_named_entity_upper_s(name)
    } else if name[0] == 'T' {
        spec_named_entity_upper_t(name)
    } else if name[0] == 'U' {
        spec_named_entity_upper_u(name)
    } else if name[0] == 'X' {
        spec_named_entity_upper_x(name)
    } else if name[0] == 'Y' {
        spec_named_entity_upper_y(name)
    } else if name[0] == 'Z' {
        spec_named_entity_upper_z(name)
    } else if name[0] == 'a' {
        spec_named_entity_a(name)
    } else if name[0] == 'b' {
        spec_named_entity_b(name)
    } else if name[0] == 'c' {
        spec_named_entity_c(name)
    } else if name[0] == 'd' {
        spec_named_entity_d(name)
    } else if name[0] == 'e' {
        spec_named_entity_e(name)
    } else if name[0] == 'f' {
        spec_named_entity_f(name)
    } else if name[0] == 'g' {
        spec_named_entity_g(name)
    } else if name[0] == 'h' {
        spec_named_entity_h(name)
    } else if name[0] == 'i' {
        spec_named_entity_i(name)
    } else if name[0] == 'k' {
        spec_named_entity_k(name)
    } else if name[0] == 'l' {
        spec_named_entity_l(name)
    } else if name[0] == 'm' {
        spec_named_entity_m(name)
    } else if name[0] == 'n' {
        spec_named_entity_n(name)
    } else if name[0] == 'o' {
        spec_named_entity_o(name)
    } else if name[0] == 'p' {
        spec_named_entity_p(name)
    } else if name[0] == 'q' {
        spec_named_entity_q(name)
    } else if name[0] == 'r' {
        spec_named_entity_r(name)
    } else if name[0] == 's' {
        spec_named_entity_s(name)
    } else if name[0] == 't' {
        spec_named_entity_t(name)
    } else if name[0] == 'u' {
        spec_named_entity_u(name)
    } else if name[0] == 'w' {
        spec_named_entity_w(name)
    } else if name[0] == 'x' {
        spec_named_entity_x(name)
    } else if name[0] == 'y' {
        spec_named_entity_y(name)
    } else if name[0] == 'z' {
        spec_named_entity_z(name)
    } else {
        None
    }
}

pub open spec fn spec_named_entity_upper_a(name: Seq<char>) -> Option<Seq<char>> {
    if name == "Agrave"@ {
        Some("\u{C0}"@)
    } else if name == "Aacute"@ {
        Some("\u{C1}"@)
    } else if name == "Acirc"@ {
        Some("\u{C2}"@)
    } else if name == "Atilde"@ {
        Some("\u{C3}"@)
    } else if name == "Auml"@ {
        Some("\u{C4}"@)
    } else if name == "Aring"@ {
        Some("\u{C5}"@)
    } else if name == "AElig"@ {
        Some("\u{C6}"@)
    } else if name == "Alpha"@ {
        Some("\u{391}"@)
    } else if name == "AMP"@ {
        Some("\u{26}"@)
    } else {
        None
    }
}

fn named_entity_upper_a(name: &[char]) -> (r: Option<&'static str>)
    ensures
        r matches Some(v) ==> spec_named_entity_upper_a(name@) == Some(v@),
        r is None ==> spec_named_entity_upper_a(name@) is None,
{
    if chars_eq_str(name, "Agrave") {
        return Some("\u{C0}");
    }
    if chars_eq_str(name, "Aacute") {
        return Some("\u{C1}");
    }
    if chars_eq_str(name, "Acirc") {
        return Some("\u{C2}");
    }
    if chars_eq_str(name, "Atilde") {
        return Some("\u{C3}");
    }
    if chars_eq_str(name, "Auml") {
        return Some("\u{C4}");
    }
    if chars_eq_str(name, "Aring") {
        return Some("\u{C5}");
    }
    if chars_eq_str(name, "AElig") {
        return Some("\u{C6}");
    }
    if chars_eq_str(name, "Alpha") {
        return Some("\u{391}");
    }
    if chars_eq_str(name, "AMP") {
        return Some("\u{26}");
    }
    None
}

pub open spec fn spec_named_entity_upper_b(name: Seq<char>) -> Option<Seq<char>> {
    if name == "Beta"@ {
        Some("\u{392}"@)
    } else {
        None
    }
}

fn named_entity_upper_b(name: &[char]) -> (r: Option<&'static str>)
    ensures
        r matches Some(v) ==> spec_named_entity_upper_b(name@) == Some(v@),
        r is None ==> spec_named_entity_upper_b(name@) is None,
{
    if chars_eq_str(name, "Beta") {
        return Some("\u{392}");
    }
    None
}

pub open spec fn spec_named_entity_upper_c(name: Seq<char>) -> Option<Seq<char>> {
    if name == "Ccedil"@ {
        Some("\u{C7}"@)
    } else if name == "Chi"@ {
        Some("\u{3A7}"@)
    } else if name == "ClockwiseContourIntegral"@ {
        Some("\u{2232}"@)
    } else if name == "COPY"@ {
        Some("\u{A9}"@)
    } else {
        None
    }
}

fn named_entity_upper_c(name: &[char]) -> (r: Option<&'static str>)
    ensures
        r matches Some(v) ==> spec_named_entity_upper_c(name@) == Some(v@),
        r is None ==> spec_named_entity_upper_c(name@) is None,
{
    if chars_eq_str(name, "Ccedil") {
        return Some("\u{C7}");
    }
    if chars_eq_str(name, "Chi") {
        return Some("\u{3A7}");
    }
    if chars_eq_str(name, "ClockwiseContourIntegral") {
        return Some("\u{2232}");
    }
    if chars_eq_str(name, "COPY") {
        return Some("\u{A9}");
    }
    None
}

pub open spec fn spec_named_entity_upper_d(name: Seq<char>) -> Option<Seq<char>> {
    if name == "Dagger"@ {
        Some("\u{2021}"@)
    } else if name == "Delta"@ {
        Some("\u{394}"@)
    } else if name == "Dcaron"@ {
        Some("\u{10E}"@)
    } else if name == "DifferentialD"@ {
        Some("\u{2146}"@)
    } else {
        None
    }
}

fn named_entity_upper_d(name: &[char]) -> (r: Option<&'static str>)
    ensures
        r matches Some(v) ==> spec_named_entity_upper_d(name@) == Some(v@),
        r is None ==> spec_named_entity_upper_d(name@) is None,
{
    if chars_eq_str(name, "Dagger") {
        return Some("\u{2021}");
    }
    if chars_eq_str(name, "Delta") {
        return Some("\u{394}");
    }
    if chars_eq_str(name, "Dcaron") {
        return Some("\u{10E}");
    }
    if chars_eq_str(name, "DifferentialD") {
        return Some("\u{2146}");
    }
    None
}

pub open spec fn spec_named_entity_upper_e(name: Seq<char>) -> Option<Seq<char>> {
    if name == "Egrave"@ {
        Some("\u{C8}"@)
    } else if name == "Eacute"@ {
        Some("\u{C9}"@)
    } else if name == "Ecirc"@ {
        Some("\u{CA}"@)
    } else if name == "Euml"@ {
        Some("\u{CB}"@)
    } else if name == "ETH"@ {
        Some("\u{D0}"@)
    } else if name == "Epsilon"@ {
        Some("\u{395}"@)
    } else if name == "Eta"@ {
        Some("\u{397}"@)
    } else {
        None
    }
}

fn named_entity_upper_e(name: &[char]) -> (r: Option<&'static str>)
    ensures
        r matches Some(v) ==> spec_named_entity_upper_e(name@) == Some(v@),
        r is None ==> spec_named_entity_upper_e(name@) is None,
{
    if chars_eq_str(name, "Egrave") {
        return Some("\u{C8}");
    }
    if chars_eq_str(name, "Eacute") {
        return Some("\u{C9}");
    }
    if chars_eq_str(name, "Ecirc") {
        return Some("\u{CA}");
    }
    if chars_eq_str(name, "Euml") {
        return Some("\u{CB}");
    }
    if chars_eq_str(name, "ETH") {
        return Some("\u{D0}");
    }
    if chars_eq_str(name, "Epsilon") {
        return Some("\u{395}");
    }
    if chars_eq_str(name, "Eta") {
        return Some("\u{397}");
    }
    None
}

pub open spec fn spec_named_entity_upper_g(name: Seq<char>) -> Option<Seq<char>> {
    if name == "Gamma"@ {
        Some("\u{393}"@)
    } else if name == "GT"@ {
        Some("\u{3E}"@)
    } else {
        None
    }
}

fn named_entity_upper_g(name: &[char]) -> (r: Option<&'static str>)
    ensures
        r matches Some(v) ==> spec_named_entity_upper_g(name@) == Some(v@),
        r is None ==> spec_named_entity_upper_g(name@) is None,
{
    if chars_eq_str(name, "Gamma") {
        return Some("\u{393}");
    }
    if chars_eq_str(name, "GT") {
        return Some("\u{3E}");
    }
    None
}

pub open spec fn spec_named_entity_upper_h(name: Seq<char>) -> Option<Seq<char>> {
    if name == "HilbertSpace"@ {
        Some("\u{210B}"@)
    } else {
        None
    }
}

fn named_entity_upper_h(name: &[char]) -> (r: Option<&'static str>)
    ensures
        r matches Some(v) ==> spec_named_entity_upper_h(name@) == Some(v@),
        r is None ==> spec_named_entity_upper_h(name@) is None,
{
    if chars_eq_str(name, "HilbertSpace") {
        return Some("\u{210B}");
    }
    None
}

pub open spec fn spec_named_entity_upper_i(name: Seq<char>) -> Option<Seq<char>> {
    if name == "Igrave"@ {
        Some("\u{CC}"@)
    } else if name == "Iacute"@ {
        Some("\u{CD}"@)
    } else if name == "Icirc"@ {
        Some("\u{CE}"@)
    } else if name == "Iuml"@ {
        Some("\u{CF}"@)
    } else if name == "Iota"@ {
        Some("\u{399}"@)
    } else {
        None
    }
}

fn named_entity_upper_i(name: &[char]) -> (r: Option<&'static str>)
    ensures
        r matches Some(v) ==> spec_named_entity_upper_i(name@) == Some(v@),
        r is None ==> spec_named_entity_upper_i(name@) is None,
{
    if chars_eq_str(name, "Igrave") {
        return Some("\u{CC}");
    }
    if chars_eq_str(name, "Iacute") {
        return Some("\u{CD}");
    }
    if chars_eq_str(name, "Icirc") {
        return Some("\u{CE}");
    }
    if chars_eq_str(name, "Iuml") {
        return Some("\u{CF}");
    }
    if chars_eq_str(name, "Iota") {
        return Some("\u{399}");
    }
    None
}

pub open spec fn spec_named_entity_upper_k(name: Seq<char>) -> Option<Seq<char>> {
    if name == "Kappa"@ {
        Some("\u{39A}"@)
    } else {
        None
    }
}

fn named_entity_upper_k(name: &[char]) -> (r: Option<&'static str>)
    ensures
        r matches Some(v) ==> spec_named_entity_upper_k(name@) == Some(v@),
        r is None ==> spec_named_entity_upper_k(name@) is None,
{
    if chars_eq_str(name, "Kappa") {
        return Some("\u{39A}");
    }
    None
}

pub open spec fn spec_named_entity_upper_l(name: Seq<char>) -> Option<Seq<char>> {
    if name == "Lambda"@ {
        Some("\u{39B}"@)
    } else if name == "LT"@ {
        Some("\u{3C}"@)
    } else {
        None
    }
}

fn named_entity_upper_l(name: &[char]) -> (r: Option<&'static str>)
    ensures
        r matches Some(v) ==> spec_named_entity_upper_l(name@) == Some(v@),
        r is None ==> spec_named_entity_upper_l(name@) is None,
{
    if chars_eq_str(name, "Lambda") {
        return Some("\u{39B}");
    }
    if chars_eq_str(name, "LT") {
        return Some("\u{3C}");
    }
    None
}

pub open spec fn spec_named_entity_upper_m(name: Seq<char>) -> Option<Seq<char>> {
    if name == "Mu"@ {
        Some("\u{39C}"@)
    } else {
        None
    }
}

fn named_entity_upper_m(name: &[char]) -> (r: Option<&'static str>)
    ensures
        r matches Some(v) ==> spec_named_entity_upper_m(name@) == Some(v@),
        r is None ==> spec_named_entity_upper_m(name@) is None,
{
    if chars_eq_str(name, "Mu") {
        return Some("\u{39C}");
    }
    None
}

pub open spec fn spec_named_entity_upper_n(name: Seq<char>) -> Option<Seq<char>> {
    if name == "Ntilde"@ {
        Some("\u{D1}"@)
    } else if name == "Nu"@ {
        Some("\u{39D}"@)
    } else {
        None
    }
}

fn named_entity_upper_n(name: &[char]) -> (r: Option<&'static str>)
    ensures
        r matches Some(v) ==> spec_named_entity_upper_n(name@) == Some(v@),
        r is None ==> spec_named_entity_upper_n(name@) is None,
{
    if chars_eq_str(name, "Ntilde") {
        return Some("\u{D1}");
    }
    if chars_eq_str(name, "Nu") {
        return Some("\u{39D}");
    }
    None
}

pub open spec fn spec_named_entity_upper_o(name: Seq<char>) -> Option<Seq<char>> {
    if name == "Ograve"@ {
        Some("\u{D2}"@)
    } else if name == "Oacute"@ {
        Some("\u{D3}"@)
    } else if name == "Ocirc"@ {
        Some("\u{D4}"@)
    } else if name == "Otilde"@ {
        Some("\u{D5}"@)
    } else if name == "Ouml"@ {
        Some("\u{D6}"@)
    } else if name == "Oslash"@ {
        Some("\u{D8}"@)
    } else if name == "OElig"@ {
        Some("\u{152}"@)
    } else if name == "Omicron"@ {
        Some("\u{39F}"@)
    } else if name == "Omega"@ {
        Some("\u{3A9}"@)
    } else {
        None
    }
}

fn named_entity_upper_o(name: &[char]) -> (r: Option<&'static str>)
    ensures
        r matches Some(v) ==> spec_named_entity_upper_o(name@) == Some(v@),
        r is None ==> spec_named_entity_upper_o(name@) is None,
{
    if chars_eq_str(name, "Ograve") {
        return Some("\u{D2}");
    }
    if chars_eq_str(name, "Oacute") {
        return Some("\u{D3}");
    }
    if chars_eq_str(name, "Ocirc") {
        return Some("\u{D4}");
    }
    if chars_eq_str(name, "Otilde") {
        return Some("\u{D5}");
    }
    if chars_eq_str(name, "Ouml") {
        return Some("\u{D6}");
    }
    if chars_eq_str(name, "Oslash") {
        return Some("\u{D8}");
    }
    if chars_eq_str(name, "OElig") {
        return Some("\u{152}");
    }
    if chars_eq_str(name, "Omicron") {
        return Some("\u{39F}");
    }
    if chars_eq_str(name, "Omega") {
        return Some("\u{3A9}");
    }
    None
}

pub open spec fn spec_named_entity_upper_p(name: Seq<char>) -> Option<Seq<char>> {
    if name == "Pi"@ {
        Some("\u{3A0}"@)
    } else if name == "Phi"@ {
        Some("\u{3A6}"@)
    } else if name == "Psi"@ {
        Some("\u{3A8}"@)
    } else if name == "Prime"@ {
        Some("\u{2033}"@)
    } else {
        None
    }
}

fn named_entity_upper_p(name: &[char]) -> (r: Option<&'static str>)
    ensures
        r matches Some(v) ==> spec_named_entity_upper_p(name@) == Some(v@),
        r is None ==> spec_named_entity_upper_p(name@) is None,
{
    if chars_eq_str(name, "Pi") {
        return Some("\u{3A0}");
    }
    if chars_eq_str(name, "Phi") {
        return Some("\u{3A6}");
    }
    if chars_eq_str(name, "Psi") {
        return Some("\u{3A8}");
    }
    if chars_eq_str(name, "Prime") {
        return Some("\u{2033}");
    }
    None
}

pub open spec fn spec_named_entity_upper_q(name: Seq<char>) -> Option<Seq<char>> {
    if name == "QUOT"@ {
        Some("\u{22}"@)
    } else {
        None
    }
}

fn named_entity_upper_q(name: &[char]) -> (r: Option<&'static str>)
    ensures
        r matches Some(v) ==> spec_named_entity_upper_q(name@) == Some(v@),
        r is None ==> spec_named_entity_upper_q(name@) is None,
{
    if chars_eq_str(name, "QUOT") {
        return Some("\u{22}");
    }
    None
}

pub open spec fn spec_named_entity_upper_r(name: Seq<char>) -> Option<Seq<char>> {
    if name == "Rho"@ {
        Some("\u{3A1}"@)
    } else if name == "REG"@ {
        Some("\u{AE}"@)
    } else {
        None
    }
}

fn named_entity_upper_r(name: &[char]) -> (r: Option<&'static str>)
    ensures
        r matches Some(v) ==> spec_named_entity_upper_r(name@) == Some(v@),
        r is None ==> spec_named_entity_upper_r(name@) is None,
{
    if chars_eq_str(name, "Rho") {
        return Some("\u{3A1}");
    }
    if chars_eq_str(name, "REG") {
        return Some("\u{AE}");
    }
    None
}

pub open spec fn spec_named_entity_upper_s(name: Seq<char>) -> Option<Seq<char>> {
    if name == "Scaron"@ {
        Some("\u{160}"@)
    } else if name == "Sigma"@ {
        Some("\u{3A3}"@)
    } else {
        None
    }
}

fn named_entity_upper_s(name: &[char]) -> (r: Option<&'static str>)
    ensures
        r matches Some(v) ==> spec_named_entity_upper_s(name@) == Some(v@),
        r is None ==> spec_named_entity_upper_s(name@) is None,
{
    if chars_eq_str(name, "Scaron") {
        return Some("\u{160}");
    }
    if chars_eq_str(name, "Sigma") {
        return Some("\u{3A3}");
    }
    None
}

pub open spec fn spec_named_entity_upper_t(name: Seq<char>) -> Option<Seq<char>> {
    if name == "THORN"@ {
        Some("\u{DE}"@)
    } else if name == "Theta"@ {
        Some("\u{398}"@)
    } else if name == "Tau"@ {
        Some("\u{3A4}"@)
    } else {
        None
    }
}

fn named_entity_upper_t(name: &[char]) -> (r: Option<&'static str>)
    ensures
        r matches Some(v) ==> spec_named_entity_upper_t(name@) == Some(v@),
        r is None ==> spec_named_entity_upper_t(name@) is None,
{
    if chars_eq_str(name, "THORN") {
        return Some("\u{DE}");
    }
    if chars_eq_str(name, "Theta") {
        return Some("\u{398}");
    }
    if chars_eq_str(name, "Tau") {
        return Some("\u{3A4}");
    }
    None
}

pub open spec fn spec_named_entity_upper_u(name: Seq<char>) -> Option<Seq<char>> {
    if name == "Ugrave"@ {
        Some("\u{D9}"@)
    } else if name == "Uacute"@ {
        Some("\u{DA}"@)
    } else if name == "Ucirc"@ {
        Some("\u{DB}"@)
    } else if name == "Uuml"@ {
        Some("\u{DC}"@)
    } else if name == "Upsilon"@ {
        Some("\u{3A5}"@)
    } else {
        None
    }
}

fn named_entity_upper_u(name: &[char]) -> (r: Option<&'static str>)
    ensures
        r matches Some(v) ==> spec_named_entity_upper_u(name@) == Some(v@),
        r is None ==> spec_named_entity_upper_u(name@) is None,
{
    if chars_eq_str(name, "Ugrave") {
        return Some("\u{D9}");
    }
    if chars_eq_str(name, "Uacute") {
        return Some("\u{DA}");
    }
    if chars_eq_str(name, "Ucirc") {
        return Some("\u{DB}");
    }
    if chars_eq_str(name, "Uuml") {
        return Some("\u{DC}");
    }
    if chars_eq_str(name, "Upsilon") {
        return Some("\u{3A5}");
    }
    None
}

pub open spec fn spec_named_entity_upper_x(name: Seq<char>) -> Option<Seq<char>> {
    if name == "Xi"@ {
        Some("\u{39E}"@)
    } else {
        None
    }
}

fn named_entity_upper_x(name: &[char]) -> (r: Option<&'static str>)
    ensures
        r matches Some(v) ==> spec_named_entity_upper_x(name@) == Some(v@),
        r is None ==> spec_named_entity_upper_x(name@) is None,
{
    if chars_eq_str(name, "Xi") {
        return Some("\u{39E}");
    }
    None
}

pub open spec fn spec_named_entity_upper_y(name: Seq<char>) -> Option<Seq<char>> {
    if name == "Yacute"@ {
        Some("\u{DD}"@)
    } else if name == "Yuml"@ {
        Some("\u{178}"@)
    } else {
        None
    }
}

fn named_entity_upper_y(name: &[char]) -> (r: Option<&'static str>)
    ensures
        r matches Some(v) ==> spec_named_entity_upper_y(name@) == Some(v@),
        r is None ==> spec_named_entity_upper_y(name@) is None,
{
    if chars_eq_str(name, "Yacute") {
        return Some("\u{DD}");
    }
    if chars_eq_str(name, "Yuml") {
        return Some("\u{178}");
    }
    None
}

pub open spec fn spec_named_entity_upper_z(name: Seq<char>) -> Option<Seq<char>> {
    if name == "Zeta"@ {
        Some("\u{396}"@)
    } else {
        None
    }
}

fn named_entity_upper_z(name: &[char]) -> (r: Option<&'static str>)
    ensures
        r matches Some(v) ==> spec_named_entity_upper_z(name@) == Some(v@),
        r is None ==> spec_named_entity_upper_z(name@) is None,
{
    if chars_eq_str(name, "Zeta") {
        return Some("\u{396}");
    }
    None
}

pub open spec fn spec_named_entity_a(name: Seq<char>) -> Option<Seq<char>> {
    if name == "acute"@ {
        Some("\u{B4}"@)
    } else if name == "agrave"@ {
        Some("\u{E0}"@)
    } else if name == "aacute"@ {
        Some("\u{E1}"@)
    } else if name == "acirc"@ {
        Some("\u{E2}"@)
    } else if name == "atilde"@ {
        Some("\u{E3}"@)
    } else if name == "auml"@ {
        Some("\u{E4}"@)
    } else if name == "aring"@ {
        Some("\u{E5}"@)
    } else if name == "aelig"@ {
        Some("\u{E6}"@)
    } else if name == "amp"@ {
        Some("\u{26}"@)
    } else if name == "apos"@ {
        Some("\u{27}"@)
    } else if name == "alpha"@ {
        Some("\u{3B1}"@)
    } else if name == "alefsym"@ {
        Some("\u{2135}"@)
    } else if name == "ang"@ {
        Some("\u{2220}"@)
    } else if name == "and"@ {
        Some("\u{2227}"@)
    } else if name == "asymp"@ {
        Some("\u{2248}"@)
    } else {
        None
    }
}

fn named_entity_a(name: &[char]) -> (r: Option<&'static str>)
    ensures
        r matches Some(v) ==> spec_named_entity_a(name@) == Some(v@),
        r is None ==> spec_named_entity_a(name@) is None,
{
    if chars_eq_str(name, "acute") {
        return Some("\u{B4}");
    }
    if chars_eq_str(name, "agrave") {
        return Some("\u{E0}");
    }
    if chars_eq_str(name, "aacute") {
        return Some("\u{E1}");
    }
    if chars_eq_str(name, "acirc") {
        return Some("\u{E2}");
    }
    if chars_eq_str(name, "atilde") {
        return Some("\u{E3}");
    }
    if chars_eq_str(name, "auml") {
        return Some("\u{E4}");
    }
    if chars_eq_str(name, "aring") {
        return Some("\u{E5}");
    }
    if chars_eq_str(name, "aelig") {
        return Some("\u{E6}");
    }
    if chars_eq_str(name, "amp") {
        return Some("\u{26}");
    }
    if chars_eq_str(name, "apos") {
        return Some("\u{27}");
    }
    if chars_eq_str(name, "alpha") {
        return Some("\u{3B1}");
    }
    if chars_eq_str(name, "alefsym") {
        return Some("\u{2135}");
    }
    if chars_eq_str(name, "ang") {
        return Some("\u{2220}");
    }
    if chars_eq_str(name, "and") {
        return Some("\u{2227}");
    }
    if chars_eq_str(name, "asymp") {
        return Some("\u{2248}");
    }
    None
}

pub open spec fn spec_named_entity_b(name: Seq<char>) -> Option<Seq<char>> {
    if name == "brvbar"@ {
        Some("\u{A6}"@)
    } else if name == "bdquo"@ {
        Some("\u{201E}"@)
    } else if name == "beta"@ {
        Some("\u{3B2}"@)
    } else if name == "bull"@ {
        Some("\u{2022}"@)
    } else {
        None
    }
}

fn named_entity_b(name: &[char]) -> (r: Option<&'static str>)
    ensures
        r matches Some(v) ==> spec_named_entity_b(name@) == Some(v@),
        r is None ==> spec_named_entity_b(name@) is None,
{
    if chars_eq_str(name, "brvbar") {
        return Some("\u{A6}");
    }
    if chars_eq_str(name, "bdquo") {
        return Some("\u{201E}");
    }
    if chars_eq_str(name, "beta") {
        return Some("\u{3B2}");
    }
    if chars_eq_str(name, "bull") {
        return Some("\u{2022}");
    }
    None
}

pub open spec fn spec_named_entity_c(name: Seq<char>) -> Option<Seq<char>> {
    if name == "cent"@ {
        Some("\u{A2}"@)
    } else if name == "curren"@ {
        Some("\u{A4}"@)
    } else if name == "copy"@ {
        Some("\u{A9}"@)
    } else if name == "cedil"@ {
        Some("\u{B8}"@)
    } else if name == "ccedil"@ {
        Some("\u{E7}"@)
    } else if name == "circ"@ {
        Some("\u{2C6}"@)
    } else if name == "chi"@ {
        Some("\u{3C7}"@)
    } else if name == "crarr"@ {
        Some("\u{21B5}"@)
    } else if name == "cap"@ {
        Some("\u{2229}"@)
    } else if name == "cup"@ {
        Some("\u{222A}"@)
    } else if name == "cong"@ {
        Some("\u{2245}"@)
    } else if name == "clubs"@ {
        Some("\u{2663}"@)
    } else {
        None
    }
}

fn named_entity_c(name: &[char]) -> (r: Option<&'static str>)
    ensures
        r matches Some(v) ==> spec_named_entity_c(name@) == Some(v@),
        r is None ==> spec_named_entity_c(name@) is None,
{
    if chars_eq_str(name, "cent") {
        return Some("\u{A2}");
    }
    if chars_eq_str(name, "curren") {
        return Some("\u{A4}");
    }
    if chars_eq_str(name, "copy") {
        return Some("\u{A9}");
    }
    if chars_eq_str(name, "cedil") {
        return Some("\u{B8}");
    }
    if chars_eq_str(name, "ccedil") {
        return Some("\u{E7}");
    }
    if chars_eq_str(name, "circ") {
        return Some("\u{2C6}");
    }
    if chars_eq_str(name, "chi") {
        return Some("\u{3C7}");
    }
    if chars_eq_str(name, "crarr") {
        return Some("\u{21B5}");
    }
    if chars_eq_str(name, "cap") {
        return Some("\u{2229}");
    }
    if chars_eq_str(name, "cup") {
        return Some("\u{222A}");
    }
    if chars_eq_str(name, "cong") {
        return Some("\u{2245}");
    }
    if chars_eq_str(name, "clubs") {
        return Some("\u{2663}");
    }
    None
}

pub open spec fn spec_named_entity_d(name: Seq<char>) -> Option<Seq<char>> {
    if name == "deg"@ {
        Some("\u{B0}"@)
    } else if name == "divide"@ {
        Some("\u{F7}"@)
    } else if name == "dagger"@ {
        Some("\u{2020}"@)
    } else if name == "delta"@ {
        Some("\u{3B4}"@)
    } else if name == "darr"@ {
        Some("\u{2193}"@)
    } else if name == "dArr"@ {
        Some("\u{21D3}"@)
    } else if name == "diams"@ {
        Some("\u{2666}"@)
    } else {
        None
    }
}

fn named_entity_d(name: &[char]) -> (r: Option<&'static str>)
    ensures
        r matches Some(v) ==> spec_named_entity_d(name@) == Some(v@),
        r is None ==> spec_named_entity_d(name@) is None,
{
    if chars_eq_str(name, "deg") {
        return Some("\u{B0}");
    }
    if chars_eq_str(name, "divide") {
        return Some("\u{F7}");
    }
    if chars_eq_str(name, "dagger") {
        return Some("\u{2020}");
    }
    if chars_eq_str(name, "delta") {
        return Some("\u{3B4}");
    }
    if chars_eq_str(name, "darr") {
        return Some("\u{2193}");
    }
    if chars_eq_str(name, "dArr") {
        return Some("\u{21D3}");
    }
    if chars_eq_str(name, "diams") {
        return Some("\u{2666}");
    }
    None
}

pub open spec fn spec_named_entity_e(name: Seq<char>) -> Option<Seq<char>> {
    if name == "egrave"@ {
        Some("\u{E8}"@)
    } else if name == "eacute"@ {
        Some("\u{E9}"@)
    } else if name == "ecirc"@ {
        Some("\u{EA}"@)
    } else if name == "euml"@ {
        Some("\u{EB}"@)
    } else if name == "eth"@ {
        Some("\u{F0}"@)
    } else if name == "ensp"@ {
        Some("\u{2002}"@)
    } else if name == "emsp"@ {
        Some("\u{2003}"@)
    } else if name == "euro"@ {
        Some("\u{20AC}"@)
    } else if name == "epsilon"@ {
        Some("\u{3B5}"@)
    } else if name == "eta"@ {
        Some("\u{3B7}"@)
    } else if name == "exist"@ {
        Some("\u{2203}"@)
    } else if name == "empty"@ {
        Some("\u{2205}"@)
    } else if name == "equiv"@ {
        Some("\u{2261}"@)
    } else {
        None
    }
}

fn named_entity_e(name: &[char]) -> (r: Option<&'static str>)
    ensures
        r matches Some(v) ==> spec_named_entity_e(name@) == Some(v@),
        r is None ==> spec_named_entity_e(name@) is None,
{
    if chars_eq_str(name, "egrave") {
        return Some("\u{E8}");
    }
    if chars_eq_str(name, "eacute") {
        return Some("\u{E9}");
    }
    if chars_eq_str(name, "ecirc") {
        return Some("\u{EA}");
    }
    if chars_eq_str(name, "euml") {
        return Some("\u{EB}");
    }
    if chars_eq_str(name, "eth") {
        return Some("\u{F0}");
    }
    if chars_eq_str(name, "ensp") {
        return Some("\u{2002}");
    }
    if chars_eq_str(name, "emsp") {
        return Some("\u{2003}");
    }
    if chars_eq_str(name, "euro") {
        return Some("\u{20AC}");
    }
    if chars_eq_str(name, "epsilon") {
        return Some("\u{3B5}");
    }
    if chars_eq_str(name, "eta") {
        return Some("\u{3B7}");
    }
    if chars_eq_str(name, "exist") {
        return Some("\u{2203}");
    }
    if chars_eq_str(name, "empty") {
        return Some("\u{2205}");
    }
    if chars_eq_str(name, "equiv") {
        return Some("\u{2261}");
    }
    None
}

pub open spec fn spec_named_entity_f(name: Seq<char>) -> Option<Seq<char>> {
    if name == "frac14"@ {
        Some("\u{BC}"@)
    } else if name == "frac12"@ {
        Some("\u{BD}"@)
    } else if name == "frac34"@ {
        Some("\u{BE}"@)
    } else if name == "fnof"@ {
        Some("\u{192}"@)
    } else if name == "frasl"@ {
        Some("\u{2044}"@)
    } else if name == "forall"@ {
        Some("\u{2200}"@)
    } else {
        None
    }
}

fn named_entity_f(name: &[char]) -> (r: Option<&'static str>)
    ensures
        r matches Some(v) ==> spec_named_entity_f(name@) == Some(v@),
        r is None ==> spec_named_entity_f(name@) is None,
{
    if chars_eq_str(name, "frac14") {
        return Some("\u{BC}");
    }
    if chars_eq_str(name, "frac12") {
        return Some("\u{BD}");
    }
    if chars_eq_str(name, "frac34") {
        return Some("\u{BE}");
    }
    if chars_eq_str(name, "fnof") {
        return Some("\u{192}");
    }
    if chars_eq_str(name, "frasl") {
        return Some("\u{2044}");
    }
    if chars_eq_str(name, "forall") {
        return Some("\u{2200}");
    }
    None
}

pub open spec fn spec_named_entity_g(name: Seq<char>) -> Option<Seq<char>> {
    if name == "gt"@ {
        Some("\u{3E}"@)
    } else if name == "gamma"@ {
        Some("\u{3B3}"@)
    } else if name == "ge"@ {
        Some("\u{2265}"@)
    } else {
        None
    }
}

fn named_entity_g(name: &[char]) -> (r: Option<&'static str>)
    ensures
        r matches Some(v) ==> spec_named_entity_g(name@) == Some(v@),
        r is None ==> spec_named_entity_g(name@) is None,
{
    if chars_eq_str(name, "gt") {
        return Some("\u{3E}");
    }
    if chars_eq_str(name, "gamma") {
        return Some("\u{3B3}");
    }
    if chars_eq_str(name, "ge") {
        return Some("\u{2265}");
    }
    None
}

pub open spec fn spec_named_entity_h(name: Seq<char>) -> Option<Seq<char>> {
    if name == "hellip"@ {
        Some("\u{2026}"@)
    } else if name == "harr"@ {
        Some("\u{2194}"@)
    } else if name == "hArr"@ {
        Some("\u{21D4}"@)
    } else if name == "hearts"@ {
        Some("\u{2665}"@)
    } else {
        None
    }
}

fn named_entity_h(name: &[char]) -> (r: Option<&'static str>)
    ensures
        r matches Some(v) ==> spec_named_entity_h(name@) == Some(v@),
        r is None ==> spec_named_entity_h(name@) is None,
{
    if chars_eq_str(name, "hellip") {
        return Some("\u{2026}");
    }
    if chars_eq_str(name, "harr") {
        return Some("\u{2194}");
    }
    if chars_eq_str(name, "hArr") {
        return Some("\u{21D4}");
    }
    if chars_eq_str(name, "hearts") {
        return Some("\u{2665}");
    }
    None
}

pub open spec fn spec_named_entity_i(name: Seq<char>) -> Option<Seq<char>> {
    if name == "iexcl"@ {
        Some("\u{A1}"@)
    } else if name == "iquest"@ {
        Some("\u{BF}"@)
    } else if name == "igrave"@ {
        Some("\u{EC}"@)
    } else if name == "iacute"@ {
        Some("\u{ED}"@)
    } else if name == "icirc"@ {
        Some("\u{EE}"@)
    } else if name == "iuml"@ {
        Some("\u{EF}"@)
    } else if name == "iota"@ {
        Some("\u{3B9}"@)
    } else if name == "image"@ {
        Some("\u{2111}"@)
    } else if name == "isin"@ {
        Some("\u{2208}"@)
    } else if name == "infin"@ {
        Some("\u{221E}"@)
    } else if name == "int"@ {
        Some("\u{222B}"@)
    } else {
        None
    }
}

fn named_entity_i(name: &[char]) -> (r: Option<&'static str>)
    ensures
        r matches Some(v) ==> spec_named_entity_i(name@) == Some(v@),
        r is None ==> spec_named_entity_i(name@) is None,
{
    if chars_eq_str(name, "iexcl") {
        return Some("\u{A1}");
    }
    if chars_eq_str(name, "iquest") {
        return Some("\u{BF}");
    }
    if chars_eq_str(name, "igrave") {
        return Some("\u{EC}");
    }
    if chars_eq_str(name, "iacute") {
        return Some("\u{ED}");
    }
    if chars_eq_str(name, "icirc") {
        return Some("\u{EE}");
    }
    if chars_eq_str(name, "iuml") {
        return Some("\u{EF}");
    }
    if chars_eq_str(name, "iota") {
        return Some("\u{3B9}");
    }
    if chars_eq_str(name, "image") {
        return Some("\u{2111}");
    }
    if chars_eq_str(name, "isin") {
        return Some("\u{2208}");
    }
    if chars_eq_str(name, "infin") {
        return Some("\u{221E}");
    }
    if chars_eq_str(name, "int") {
        return Some("\u{222B}");
    }
    None
}

pub open spec fn spec_named_entity_k(name: Seq<char>) -> Option<Seq<char>> {
    if name == "kappa"@ {
        Some("\u{3BA}"@)
    } else {
        None
    }
}

fn named_entity_k(name: &[char]) -> (r: Option<&'static str>)
    ensures
        r matches Some(v) ==> spec_named_entity_k(name@) == Some(v@),
        r is None ==> spec_named_entity_k(name@) is None,
{
    if chars_eq_str(name, "kappa") {
        return Some("\u{3BA}");
    }
    None
}

pub open spec fn spec_named_entity_l(name: Seq<char>) -> Option<Seq<char>> {
    if name == "laquo"@ {
        Some("\u{AB}"@)
    } else if name == "lt"@ {
        Some("\u{3C}"@)
    } else if name == "lrm"@ {
        Some("\u{200E}"@)
    } else if name == "lsquo"@ {
        Some("\u{2018}"@)
    } else if name == "ldquo"@ {
        Some("\u{201C}"@)
    } else if name == "lsaquo"@ {
        Some("\u{2039}"@)
    } else if name == "lambda"@ {
        Some("\u{3BB}"@)
    } else if name == "larr"@ {
        Some("\u{2190}"@)
    } else if name == "lArr"@ {
        Some("\u{21D0}"@)
    } else if name == "lowast"@ {
        Some("\u{2217}"@)
    } else if name == "le"@ {
        Some("\u{2264}"@)
    } else if name == "lceil"@ {
        Some("\u{2308}"@)
    } else if name == "lfloor"@ {
        Some("\u{230A}"@)
    } else if name == "lang"@ {
        Some("\u{27E8}"@)
    } else if name == "loz"@ {
        Some("\u{25CA}"@)
    } else {
        None
    }
}

fn named_entity_l(name: &[char]) -> (r: Option<&'static str>)
    ensures
        r matches Some(v) ==> spec_named_entity_l(name@) == Some(v@),
        r is None ==> spec_named_entity_l(name@) is None,
{
    if chars_eq_str(name, "laquo") {
        return Some("\u{AB}");
    }
    if chars_eq_str(name, "lt") {
        return Some("\u{3C}");
    }
    if chars_eq_str(name, "lrm") {
        return Some("\u{200E}");
    }
    if chars_eq_str(name, "lsquo") {
        return Some("\u{2018}");
    }
    if chars_eq_str(name, "ldquo") {
        return Some("\u{201C}");
    }
    if chars_eq_str(name, "lsaquo") {
        return Some("\u{2039}");
    }
    if chars_eq_str(name, "lambda") {
        return Some("\u{3BB}");
    }
    if chars_eq_str(name, "larr") {
        return Some("\u{2190}");
    }
    if chars_eq_str(name, "lArr") {
        return Some("\u{21D0}");
    }
    if chars_eq_str(name, "lowast") {
        return Some("\u{2217}");
    }
    if chars_eq_str(name, "le") {
        return Some("\u{2264}");
    }
    if chars_eq_str(name, "lceil") {
        return Some("\u{2308}");
    }
    if chars_eq_str(name, "lfloor") {
        return Some("\u{230A}");
    }
    if chars_eq_str(name, "lang") {
        return Some("\u{27E8}");
    }
    if chars_eq_str(name, "loz") {
        return Some("\u{25CA}");
    }
    None
}

pub open spec fn spec_named_entity_m(name: Seq<char>) -> Option<Seq<char>> {
    if name == "macr"@ {
        Some("\u{AF}"@)
    } else if name == "micro"@ {
        Some("\u{B5}"@)
    } else if name == "middot"@ {
        Some("\u{B7}"@)
    } else if name == "mdash"@ {
        Some("\u{2014}"@)
    } else if name == "mu"@ {
        Some("\u{3BC}"@)
    } else if name == "minus"@ {
        Some("\u{2212}"@)
    } else {
        None
    }
}

fn named_entity_m(name: &[char]) -> (r: Option<&'static str>)
    ensures
        r matches Some(v) ==> spec_named_entity_m(name@) == Some(v@),
        r is None ==> spec_named_entity_m(name@) is None,
{
    if chars_eq_str(name, "macr") {
        return Some("\u{AF}");
    }
    if chars_eq_str(name, "micro") {
        return Some("\u{B5}");
    }
    if chars_eq_str(name, "middot") {
        return Some("\u{B7}");
    }
    if chars_eq_str(name, "mdash") {
        return Some("\u{2014}");
    }
    if chars_eq_str(name, "mu") {
        return Some("\u{3BC}");
    }
    if chars_eq_str(name, "minus") {
        return Some("\u{2212}");
    }
    None
}

pub open spec fn spec_named_entity_n(name: Seq<char>) -> Option<Seq<char>> {
    if name == "nbsp"@ {
        Some("\u{A0}"@)
    } else if name == "not"@ {
        Some("\u{AC}"@)
    } else if name == "ntilde"@ {
        Some("\u{F1}"@)
    } else if name == "ndash"@ {
        Some("\u{2013}"@)
    } else if name == "nu"@ {
        Some("\u{3BD}"@)
    } else if name == "nabla"@ {
        Some("\u{2207}"@)
    } else if name == "notin"@ {
        Some("\u{2209}"@)
    } else if name == "ni"@ {
        Some("\u{220B}"@)
    } else if name == "ne"@ {
        Some("\u{2260}"@)
    } else if name == "nsub"@ {
        Some("\u{2284}"@)
    } else if name == "ngE"@ {
        Some("\u{2267}\u{338}"@)
    } else {
        None
    }
}

fn named_entity_n(name: &[char]) -> (r: Option<&'static str>)
    ensures
        r matches Some(v) ==> spec_named_entity_n(name@) == Some(v@),
        r is None ==> spec_named_entity_n(name@) is None,
{
    if chars_eq_str(name, "nbsp") {
        return Some("\u{A0}");
    }
    if chars_eq_str(name, "not") {
        return Some("\u{AC}");
    }
    if chars_eq_str(name, "ntilde") {
        return Some("\u{F1}");
    }
    if chars_eq_str(name, "ndash") {
        return Some("\u{2013}");
    }
    if chars_eq_str(name, "nu") {
        return Some("\u{3BD}");
    }
    if chars_eq_str(name, "nabla") {
        return Some("\u{2207}");
    }
    if chars_eq_str(name, "notin") {
        return Some("\u{2209}");
    }
    if chars_eq_str(name, "ni") {
        return Some("\u{220B}");
    }
    if chars_eq_str(name, "ne") {
        return Some("\u{2260}");
    }
    if chars_eq_str(name, "nsub") {
        return Some("\u{2284}");
    }
    if chars_eq_str(name, "ngE") {
        return Some("\u{2267}\u{338}");
    }
    None
}

pub open spec fn spec_named_entity_o(name: Seq<char>) -> Option<Seq<char>> {
    if name == "ordf"@ {
        Some("\u{AA}"@)
    } else if name == "ordm"@ {
        Some("\u{BA}"@)
    } else if name == "ograve"@ {
        Some("\u{F2}"@)
    } else if name == "oacute"@ {
        Some("\u{F3}"@)
    } else if name == "ocirc"@ {
        Some("\u{F4}"@)
    } else if name == "otilde"@ {
        Some("\u{F5}"@)
    } else if name == "ouml"@ {
        Some("\u{F6}"@)
    } else if name == "oslash"@ {
        Some("\u{F8}"@)
    } else if name == "oelig"@ {
        Some("\u{153}"@)
    } else if name == "omicron"@ {
        Some("\u{3BF}"@)
    } else if name == "omega"@ {
        Some("\u{3C9}"@)
    } else if name == "oline"@ {
        Some("\u{203E}"@)
    } else if name == "or"@ {
        Some("\u{2228}"@)
    } else if name == "oplus"@ {
        Some("\u{2295}"@)
    } else if name == "otimes"@ {
        Some("\u{2297}"@)
    } else {
        None
    }
}

fn named_entity_o(name: &[char]) -> (r: Option<&'static str>)
    ensures
        r matches Some(v) ==> spec_named_entity_o(name@) == Some(v@),
        r is None ==> spec_named_entity_o(name@) is None,
{
    if chars_eq_str(name, "ordf") {
        return Some("\u{AA}");
    }
    if chars_eq_str(name, "ordm") {
        return Some("\u{BA}");
    }
    if chars_eq_str(name, "ograve") {
        return Some("\u{F2}");
    }
    if chars_eq_str(name, "oacute") {
        return Some("\u{F3}");
    }
    if chars_eq_str(name, "ocirc") {
        return Some("\u{F4}");
    }
    if chars_eq_str(name, "otilde") {
        return Some("\u{F5}");
    }
    if chars_eq_str(name, "ouml") {
        return Some("\u{F6}");
    }
    if chars_eq_str(name, "oslash") {
        return Some("\u{F8}");
    }
    if chars_eq_str(name, "oelig") {
        return Some("\u{153}");
    }
    if chars_eq_str(name, "omicron") {
        return Some("\u{3BF}");
    }
    if chars_eq_str(name, "omega") {
        return Some("\u{3C9}");
    }
    if chars_eq_str(name, "oline") {
        return Some("\u{203E}");
    }
    if chars_eq_str(name, "or") {
        return Some("\u{2228}");
    }
    if chars_eq_str(name, "oplus") {
        return Some("\u{2295}");
    }
    if chars_eq_str(name, "otimes") {
        return Some("\u{2297}");
    }
    None
}

pub open spec fn spec_named_entity_p(name: Seq<char>) -> Option<Seq<char>> {
    if name == "pound"@ {
        Some("\u{A3}"@)
    } else if name == "plusmn"@ {
        Some("\u{B1}"@)
    } else if name == "para"@ {
        Some("\u{B6}"@)
    } else if name == "permil"@ {
        Some("\u{2030}"@)
    } else if name == "pi"@ {
        Some("\u{3C0}"@)
    } else if name == "phi"@ {
        Some("\u{3C6}"@)
    } else if name == "psi"@ {
        Some("\u{3C8}"@)
    } else if name == "piv"@ {
        Some("\u{3D6}"@)
    } else if name == "prime"@ {
        Some("\u{2032}"@)
    } else if name == "part"@ {
        Some("\u{2202}"@)
    } else if name == "prod"@ {
        Some("\u{220F}"@)
    } else if name == "prop"@ {
        Some("\u{221D}"@)
    } else if name == "perp"@ {
        Some("\u{22A5}"@)
    } else {
        None
    }
}

fn named_entity_p(name: &[char]) -> (r: Option<&'static str>)
    ensures
        r matches Some(v) ==> spec_named_entity_p(name@) == Some(v@),
        r is None ==> spec_named_entity_p(name@) is None,
{
    if chars_eq_str(name, "pound") {
        return Some("\u{A3}");
    }
    if chars_eq_str(name, "plusmn") {
        return Some("\u{B1}");
    }
    if chars_eq_str(name, "para") {
        return Some("\u{B6}");
    }
    if chars_eq_str(name, "permil") {
        return Some("\u{2030}");
    }
    if chars_eq_str(name, "pi") {
        return Some("\u{3C0}");
    }
    if chars_eq_str(name, "phi") {
        return Some("\u{3C6}");
    }
    if chars_eq_str(name, "psi") {
        return Some("\u{3C8}");
    }
    if chars_eq_str(name, "piv") {
        return Some("\u{3D6}");
    }
    if chars_eq_str(name, "prime") {
        return Some("\u{2032}");
    }
    if chars_eq_str(name, "part") {
        return Some("\u{2202}");
    }
    if chars_eq_str(name, "prod") {
        return Some("\u{220F}");
    }
    if chars_eq_str(name, "prop") {
        return Some("\u{221D}");
    }
    if chars_eq_str(name, "perp") {
        return Some("\u{22A5}");
    }
    None
}

pub open spec fn spec_named_entity_q(name: Seq<char>) -> Option<Seq<char>> {
    if name == "quot"@ {
        Some("\u{22}"@)
    } else {
        None
    }
}

fn named_entity_q(name: &[char]) -> (r: Option<&'static str>)
    ensures
        r matches Some(v) ==> spec_named_entity_q(name@) == Some(v@),
        r is None ==> spec_named_entity_q(name@) is None,
{
    if chars_eq_str(name, "quot") {
        return Some("\u{22}");
    }
    None
}

pub open spec fn spec_named_entity_r(name: Seq<char>) -> Option<Seq<char>> {
    if name == "reg"@ {
        Some("\u{AE}"@)
    } else if name == "raquo"@ {
        Some("\u{BB}"@)
    } else if name == "rlm"@ {
        Some("\u{200F}"@)
    } else if name == "rsquo"@ {
        Some("\u{2019}"@)
    } else if name == "rdquo"@ {
        Some("\u{201D}"@)
    } else if name == "rsaquo"@ {
        Some("\u{203A}"@)
    } else if name == "rho"@ {
        Some("\u{3C1}"@)
    } else if name == "real"@ {
        Some("\u{211C}"@)
    } else if name == "rarr"@ {
        Some("\u{2192}"@)
    } else if name == "rArr"@ {
        Some("\u{21D2}"@)
    } else if name == "radic"@ {
        Some("\u{221A}"@)
    } else if name == "rceil"@ {
        Some("\u{2309}"@)
    } else if name == "rfloor"@ {
        Some("\u{230B}"@)
    } else if name == "rang"@ {
        Some("\u{27E9}"@)
    } else {
        None
    }
}

fn named_entity_r(name: &[char]) -> (r: Option<&'static str>)
    ensures
        r matches Some(v) ==> spec_named_entity_r(name@) == Some(v@),
        r is None ==> spec_named_entity_r(name@) is None,
{
    if chars_eq_str(name, "reg") {
        return Some("\u{AE}");
    }
    if chars_eq_str(name, "raquo") {
        return Some("\u{BB}");
    }
    if chars_eq_str(name, "rlm") {
        return Some("\u{200F}");
    }
    if chars_eq_str(name, "rsquo") {
        return Some("\u{2019}");
    }
    if chars_eq_str(name, "rdquo") {
        return Some("\u{201D}");
    }
    if chars_eq_str(name, "rsaquo") {
        return Some("\u{203A}");
    }
    if chars_eq_str(name, "rho") {
        return Some("\u{3C1}");
    }
    if chars_eq_str(name, "real") {
        return Some("\u{211C}");
    }
    if chars_eq_str(name, "rarr") {
        return Some("\u{2192}");
    }
    if chars_eq_str(name, "rArr") {
        return Some("\u{21D2}");
    }
    if chars_eq_str(name, "radic") {
        return Some("\u{221A}");
    }
    if chars_eq_str(name, "rceil") {
        return Some("\u{2309}");
    }
    if chars_eq_str(name, "rfloor") {
        return Some("\u{230B}");
    }
    if chars_eq_str(name, "rang") {
        return Some("\u{27E9}");
    }
    None
}

pub open spec fn spec_named_entity_s(name: Seq<char>) -> Option<Seq<char>> {
    if name == "sect"@ {
        Some("\u{A7}"@)
    } else if name == "shy"@ {
        Some("\u{AD}"@)
    } else if name == "sup2"@ {
        Some("\u{B2}"@)
    } else if name == "sup3"@ {
        Some("\u{B3}"@)
    } else if name == "sup1"@ {
        Some("\u{B9}"@)
    } else if name == "szlig"@ {
        Some("\u{DF}"@)
    } else if name == "scaron"@ {
        Some("\u{161}"@)
    } else if name == "sbquo"@ {
        Some("\u{201A}"@)
    } else if name == "sigmaf"@ {
        Some("\u{3C2}"@)
    } else if name == "sigma"@ {
        Some("\u{3C3}"@)
    } else if name == "sum"@ {
        Some("\u{2211}"@)
    } else if name == "sim"@ {
        Some("\u{223C}"@)
    } else if name == "sub"@ {
        Some("\u{2282}"@)
    } else if name == "sup"@ {
        Some("\u{2283}"@)
    } else if name == "sube"@ {
        Some("\u{2286}"@)
    } else if name == "supe"@ {
        Some("\u{2287}"@)
    } else if name == "sdot"@ {
        Some("\u{22C5}"@)
    } else if name == "spades"@ {
        Some("\u{2660}"@)
    } else {
        None
    }
}

fn named_entity_s(name: &[char]) -> (r: Option<&'static str>)
    ensures
        r matches Some(v) ==> spec_named_entity_s(name@) == Some(v@),
        r is None ==> spec_named_entity_s(name@) is None,
{
    if chars_eq_str(name, "sect") {
        return Some("\u{A7}");
    }
    if chars_eq_str(name, "shy") {
        return Some("\u{AD}");
    }
    if chars_eq_str(name, "sup2") {
        return Some("\u{B2}");
    }
    if chars_eq_str(name, "sup3") {
        return Some("\u{B3}");
    }
    if chars_eq_str(name, "sup1") {
        return Some("\u{B9}");
    }
    if chars_eq_str(name, "szlig") {
        return Some("\u{DF}");
    }
    if chars_eq_str(name, "scaron") {
        return Some("\u{161}");
    }
    if chars_eq_str(name, "sbquo") {
        return Some("\u{201A}");
    }
    if chars_eq_str(name, "sigmaf") {
        return Some("\u{3C2}");
    }
    if chars_eq_str(name, "sigma") {
        return Some("\u{3C3}");
    }
    if chars_eq_str(name, "sum") {
        return Some("\u{2211}");
    }
    if chars_eq_str(name, "sim") {
        return Some("\u{223C}");
    }
    if chars_eq_str(name, "sub") {
        return Some("\u{2282}");
    }
    if chars_eq_str(name, "sup") {
        return Some("\u{2283}");
    }
    if chars_eq_str(name, "sube") {
        return Some("\u{2286}");
    }
    if chars_eq_str(name, "supe") {
        return Some("\u{2287}");
    }
    if chars_eq_str(name, "sdot") {
        return Some("\u{22C5}");
    }
    if chars_eq_str(name, "spades") {
        return Some("\u{2660}");
    }
    None
}

pub open spec fn spec_named_entity_t(name: Seq<char>) -> Option<Seq<char>> {
    if name == "times"@ {
        Some("\u{D7}"@)
    } else if name == "thorn"@ {
        Some("\u{FE}"@)
    } else if name == "tilde"@ {
        Some("\u{2DC}"@)
    } else if name == "thinsp"@ {
        Some("\u{2009}"@)
    } else if name == "theta"@ {
        Some("\u{3B8}"@)
    } else if name == "tau"@ {
        Some("\u{3C4}"@)
    } else if name == "thetasym"@ {
        Some("\u{3D1}"@)
    } else if name == "trade"@ {
        Some("\u{2122}"@)
    } else if name == "there4"@ {
        Some("\u{2234}"@)
    } else {
        None
    }
}

fn named_entity_t(name: &[char]) -> (r: Option<&'static str>)
    ensures
        r matches Some(v) ==> spec_named_entity_t(name@) == Some(v@),
        r is None ==> spec_named_entity_t(name@) is None,
{
    if chars_eq_str(name, "times") {
        return Some("\u{D7}");
    }
    if chars_eq_str(name, "thorn") {
        return Some("\u{FE}");
    }
    if chars_eq_str(name, "tilde") {
        return Some("\u{2DC}");
    }
    if chars_eq_str(name, "thinsp") {
        return Some("\u{2009}");
    }
    if chars_eq_str(name, "theta") {
        return Some("\u{3B8}");
    }
    if chars_eq_str(name, "tau") {
        return Some("\u{3C4}");
    }
    if chars_eq_str(name, "thetasym") {
        return Some("\u{3D1}");
    }
    if chars_eq_str(name, "trade") {
        return Some("\u{2122}");
    }
    if chars_eq_str(name, "there4") {
        return Some("\u{2234}");
    }
    None
}

pub open spec fn spec_named_entity_u(name: Seq<char>) -> Option<Seq<char>> {
    if name == "uml"@ {
        Some("\u{A8}"@)
    } else if name == "ugrave"@ {
        Some("\u{F9}"@)
    } else if name == "uacute"@ {
        Some("\u{FA}"@)
    } else if name == "ucirc"@ {
        Some("\u{FB}"@)
    } else if name == "uuml"@ {
        Some("\u{FC}"@)
    } else if name == "upsilon"@ {
        Some("\u{3C5}"@)
    } else if name == "upsih"@ {
        Some("\u{3D2}"@)
    } else if name == "uarr"@ {
        Some("\u{2191}"@)
    } else if name == "uArr"@ {
        Some("\u{21D1}"@)
    } else {
        None
    }
}

fn named_entity_u(name: &[char]) -> (r: Option<&'static str>)
    ensures
        r matches Some(v) ==> spec_named_entity_u(name@) == Some(v@),
        r is None ==> spec_named_entity_u(name@) is None,
{
    if chars_eq_str(name, "uml") {
        return Some("\u{A8}");
    }
    if chars_eq_str(name, "ugrave") {
        return Some("\u{F9}");
    }
    if chars_eq_str(name, "uacute") {
        return Some("\u{FA}");
    }
    if chars_eq_str(name, "ucirc") {
        return Some("\u{FB}");
    }
    if chars_eq_str(name, "uuml") {
        return Some("\u{FC}");
    }
    if chars_eq_str(name, "upsilon") {
        return Some("\u{3C5}");
    }
    if chars_eq_str(name, "upsih") {
        return Some("\u{3D2}");
    }
    if chars_eq_str(name, "uarr") {
        return Some("\u{2191}");
    }
    if chars_eq_str(name, "uArr") {
        return Some("\u{21D1}");
    }
    None
}

pub open spec fn spec_named_entity_w(name: Seq<char>) -> Option<Seq<char>> {
    if name == "weierp"@ {
        Some("\u{2118}"@)
    } else {
        None
    }
}

fn named_entity_w(name: &[char]) -> (r: Option<&'static str>)
    ensures
        r matches Some(v) ==> spec_named_entity_w(name@) == Some(v@),
        r is None ==> spec_named_entity_w(name@) is None,
{
    if chars_eq_str(name, "weierp") {
        return Some("\u{2118}");
    }
    None
}

pub open spec fn spec_named_entity_x(name: Seq<char>) -> Option<Seq<char>> {
    if name == "xi"@ {
        Some("\u{3BE}"@)
    } else {
        None
    }
}

fn named_entity_x(name: &[char]) -> (r: Option<&'static str>)
    ensures
        r matches Some(v) ==> spec_named_entity_x(name@) == Some(v@),
        r is None ==> spec_named_entity_x(name@) is None,
{
    if chars_eq_str(name, "xi") {
        return Some("\u{3BE}");
    }
    None
}

pub open spec fn spec_named_entity_y(name: Seq<char>) -> Option<Seq<char>> {
    if name == "yen"@ {
        Some("\u{A5}"@)
    } else if name == "yacute"@ {
        Some("\u{FD}"@)
    } else if name == "yuml"@ {
        Some("\u{FF}"@)
    } else {
        None
    }
}

fn named_entity_y(name: &[char]) -> (r: Option<&'static str>)
    ensures
        r matches Some(v) ==> spec_named_entity_y(name@) == Some(v@),
        r is None ==> spec_named_entity_y(name@) is None,
{
    if chars_eq_str(name, "yen") {
        return Some("\u{A5}");
    }
    if chars_eq_str(name, "yacute") {
        return Some("\u{FD}");
    }
    if chars_eq_str(name, "yuml") {
        return Some("\u{FF}");
    }
    None
}

pub open spec fn spec_named_entity_z(name: Seq<char>) -> Option<Seq<char>> {
    if name == "zwnj"@ {
        Some("\u{200C}"@)
    } else if name == "zwj"@ {
        Some("\u{200D}"@)
    } else if name == "zeta"@ {
        Some("\u{3B6}"@)
    } else {
        None
    }
}

fn named_entity_z(name: &[char]) -> (r: Option<&'static str>)
    ensures
        r matches Some(v) ==> spec_named_entity_z(name@) == Some(v@),
        r is None ==> spec_named_entity_z(name@) is None,
{
    if chars_eq_str(name, "zwnj") {
        return Some("\u{200C}");
    }
    if chars_eq_str(name, "zwj") {
        return Some("\u{200D}");
    }
    if chars_eq_str(name, "zeta") {
        return Some("\u{3B6}");
    }
    None
}

/// The characters that the named reference `&name;` stands for, if `name` is known.
pub fn named_entity(name: &[char]) -> (r: Option<&'static str>)
    ensures
        r matches Some(v) ==> spec_named_entity(name@) == Some(v@),
        r is None ==> spec_named_entity(name@) is None,
{
    if name.len() == 0 {
        None
    } else if name[0] == 'A' {
        named_entity_upper_a(name)
    } else if name[0] == 'B' {
        named_entity_upper_b(name)
    } else if name[0] == 'C' {
        named_entity_upper_c(name)
    } else if name[0] == 'D' {
        named_entity_upper_d(name)
    } else if name[0] == 'E' {
        named_entity_upper_e(name)
    } else if name[0] == 'G' {
        named_entity_upper_g(name)
    } else if name[0] == 'H' {
        named_entity_upper_h(name)
    } else if name[0] == 'I' {
        named_entity_upper_i(name)
    } else if name[0] == 'K' {
        named_entity_upper_k(name)
    } else if name[0] == 'L' {
        named_entity_upper_l(name)
    } else if name[0] == 'M' {
        named_entity_upper_m(name)
    } else if name[0] == 'N' {
        named_entity_upper_n(name)
    } else if name[0] == 'O' {
        named_entity_upper_o(name)
    } else if name[0] == 'P' {
        named_entity_upper_p(name)
    } else if name[0] == 'Q' {
        named_entity_upper_q(name)
    } else if name[0] == 'R' {
        named_entity_upper_r(name)
    } else if name[0] == 'S' {
        named_entity_upper_s(name)
    } else if name[0] == 'T' {
        named_entity_upper_t(name)
    } else if name[0] == 'U' {
        named_entity_upper_u(name)
    } else if name[0] == 'X' {
        named_entity_upper_x(name)
    } else if name[0] == 'Y' {
        named_entity_upper_y(name)
    } else if name[0] == 'Z' {
        named_entity_upper_z(name)
    } else if name[0] == 'a' {
        named_entity_a(name)
    } else if name[0] == 'b' {
        named_entity_b(name)
    } else if name[0] == 'c' {
        named_entity_c(name)
    } else if name[0] == 'd' {
        named_entity_d(name)
    } else if name[0] == 'e' {
        named_entity_e(name)
    } else if name[0] == 'f' {
        named_entity_f(name)
    } else if name[0] == 'g' {
        named_entity_g(name)
    } else if name[0] == 'h' {
        named_entity_h(name)
    } else if name[0] == 'i' {
        named_entity_i(name)
    } else if name[0] == 'k' {
        named_entity_k(name)
    } else if name[0] == 'l' {
        named_entity_l(name)
    } else if name[0] == 'm' {
        named_entity_m(name)
    } else if name[0] == 'n' {
        named_entity_n(name)
    } else if name[0] == 'o' {
        named_entity_o(name)
    } else if name[0] == 'p' {
        named_entity_p(name)
    } else if name[0] == 'q' {
        named_entity_q(name)
    } else if name[0] == 'r' {
        named_entity_r(name)
    } else if name[0] == 's' {
        named_entity_s(name)
    } else if name[0] == 't' {
        named_entity_t(name)
    } else if name[0] == 'u' {
        named_entity_u(name)
    } else if name[0] == 'w' {
        named_entity_w(name)
    } else if name[0] == 'x' {
        named_entity_x(name)
    } else if name[0] == 'y' {
        named_entity_y(name)
    } else if name[0] == 'z' {
        named_entity_z(name)
    } else {
        None
    }
}

} // verus!
