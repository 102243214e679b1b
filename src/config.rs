//! The server's configuration, shared in part with web clients.
use vstd::prelude::*;

verus! {

pub struct Config {
    pub features: FeaturesConfig,
    pub webrtc: WebrtcConfig,
    pub appearance: AppearanceConfig,
}

pub struct FeaturesConfig {
    pub room_watches: bool,
}

pub struct WebrtcConfig {
    pub stun: String,
    pub turn: Option<String>,
    pub turn_user: Option<String>,
    pub turn_cred: Option<String>,
}

/// Colours of the web client's theme, as CSS values.
pub struct AppearanceConfig {
    pub accent: String,
    pub accent_light: String,
    pub accent_dark: String,
    pub background: String,
    pub background_dark: String,
    pub background_light: String,
}

/// The style sheet that sets the theme's custom properties.
pub open spec fn css_overrides_text(a: AppearanceConfig) -> Seq<char> {
    ":root {\n--bg: "@ + a.background@ + ";\n--bg-dark: "@ + a.background_dark@
        + ";\n--bg-light: "@ + a.background_light@ + ";\n--ac: "@ + a.accent@
        + ";\n--ac-dark: "@ + a.accent_dark@ + ";\n--ac-dark-transparent: "@ + a.accent_dark@
        + "c9;\n--ac-light: "@ + a.accent_light@ + ";\n}\n"@
}

pub fn css_overrides(a: &AppearanceConfig) -> (r: String)
    ensures
        r@ == css_overrides_text(*a),
{
    let mut r = String::from_str(":root {\n--bg: ");
    r.append(a.background.as_str());
    r.append(";\n--bg-dark: ");
    r.append(a.background_dark.as_str());
    r.append(";\n--bg-light: ");
    r.append(a.background_light.as_str());
    r.append(";\n--ac: ");
    r.append(a.accent.as_str());
    r.append(";\n--ac-dark: ");
    r.append(a.accent_dark.as_str());
    r.append(";\n--ac-dark-transparent: ");
    r.append(a.accent_dark.as_str());
    r.append("c9;\n--ac-light: ");
    r.append(a.accent_light.as_str());
    r.append(";\n}\n");
    r
}

} // verus!
