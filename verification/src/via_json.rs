//! Reading a VIA definition out of its JSON document.
//!
//! The JSON text is parsed by serde_json into a generic value, which this
//! module walks to build the plain [`ViaDoc`] that the verified parser in
//! [`crate::config`] consumes. A document that lacks a required field or
//! holds one of the wrong shape is rejected as a whole; an unrecognised menu
//! option is kept as [`MenuOption::Other`].

use vstd::prelude::*;

use crate::config::{Config, ConfigError, MenuOption, ViaDoc};

verus! {

#[verifier::external_type_specification]
#[verifier::external_body]
pub struct ExJsonValue(serde_json::Value);

/// Relies on `serde_json::from_str`: the text parsed into a generic JSON
/// value, or nothing where the text is not a JSON document.
#[verifier::external_body]
fn json_parse(s: &str) -> (r: Option<serde_json::Value>) {
    serde_json::from_str(s).ok()
}

/// Relies on `serde_json::Value::get`: the member a JSON object holds under
/// a key.
#[verifier::external_body]
fn json_get<'a>(v: &'a serde_json::Value, key: &str) -> (r: Option<&'a serde_json::Value>) {
    v.get(key)
}

/// Relies on `serde_json::Value::as_str`: the string a JSON string holds.
pub assume_specification<'a>[ serde_json::Value::as_str ](v: &'a serde_json::Value) -> Option<
    &'a str,
>;

/// Relies on `serde_json::Value::as_u64`: the value of a JSON non-negative
/// integer.
pub assume_specification[ serde_json::Value::as_u64 ](v: &serde_json::Value) -> Option<u64>;

/// Relies on `serde_json::Value::as_i64`: the value of a JSON integer.
pub assume_specification[ serde_json::Value::as_i64 ](v: &serde_json::Value) -> Option<i64>;

/// Relies on `serde_json::Value::as_array`: the elements of a JSON array.
pub assume_specification<'a>[ serde_json::Value::as_array ](v: &'a serde_json::Value) -> Option<
    &'a Vec<serde_json::Value>,
>;

/// The string under a key, owned.
fn get_string(v: &serde_json::Value, key: &str) -> Option<String> {
    match json_get(v, key) {
        Some(f) => match f.as_str() {
            Some(s) => Some(s.to_owned()),
            None => None,
        },
        None => None,
    }
}

/// The 32-bit non-negative integer under a key.
fn get_u32(v: &serde_json::Value, key: &str) -> Option<u32> {
    match json_get(v, key) {
        Some(f) => match f.as_u64() {
            Some(x) => {
                if x <= 0xffffffff {
                    Some(x as u32)
                } else {
                    None
                }
            },
            None => None,
        },
        None => None,
    }
}

/// The label of a menu option: the first element of its `content` array read
/// as a string, or empty where that element is missing or not a string. A
/// menu option without a `content` array has no label at all.
fn option_label_of(v: &serde_json::Value) -> Option<String> {
    let content = match json_get(v, "content") {
        Some(c) => c,
        None => {
            return None;
        },
    };
    let arr = match content.as_array() {
        Some(a) => a,
        None => {
            return None;
        },
    };
    if arr.len() == 0 {
        return Some(String::new());
    }
    match arr[0].as_str() {
        Some(s) => Some(s.to_owned()),
        None => Some(String::new()),
    }
}

/// The optional `showIf` predicate of a menu option; fails where the field
/// is present but not a string.
fn show_if_of(v: &serde_json::Value) -> Option<Option<String>> {
    match json_get(v, "showIf") {
        None => Some(None),
        Some(f) => match f.as_str() {
            Some(s) => Some(Some(s.to_owned())),
            None => None,
        },
    }
}

/// One menu option: the recognised kinds keep their label, bounds and
/// predicate; anything else — an unknown kind, or a recognised kind with a
/// malformed body — is kept as `Other` and ignored downstream.
fn menu_option_of(v: &serde_json::Value) -> MenuOption {
    let kind = match json_get(v, "type") {
        Some(t) => match t.as_str() {
            Some(s) => s.to_owned(),
            None => {
                return MenuOption::Other;
            },
        },
        None => {
            return MenuOption::Other;
        },
    };
    if crate::utils::str_eq(kind.as_str(), "range") {
        let label = match option_label_of(v) {
            Some(l) => l,
            None => {
                return MenuOption::Other;
            },
        };
        let opts = match json_get(v, "options") {
            Some(o) => o,
            None => {
                return MenuOption::Other;
            },
        };
        let arr = match opts.as_array() {
            Some(a) => a,
            None => {
                return MenuOption::Other;
            },
        };
        if arr.len() != 2 {
            return MenuOption::Other;
        }
        let min = match arr[0].as_u64() {
            Some(x) => {
                if x <= 0xffffffff {
                    x as u32
                } else {
                    return MenuOption::Other;
                }
            },
            None => {
                return MenuOption::Other;
            },
        };
        let max = match arr[1].as_u64() {
            Some(x) => {
                if x <= 0xffffffff {
                    x as u32
                } else {
                    return MenuOption::Other;
                }
            },
            None => {
                return MenuOption::Other;
            },
        };
        let show_if = match show_if_of(v) {
            Some(s) => s,
            None => {
                return MenuOption::Other;
            },
        };
        MenuOption::Range { label, min, max, show_if }
    } else if crate::utils::str_eq(kind.as_str(), "dropdown") {
        let label = match option_label_of(v) {
            Some(l) => l,
            None => {
                return MenuOption::Other;
            },
        };
        let opts = match json_get(v, "options") {
            Some(o) => o,
            None => {
                return MenuOption::Other;
            },
        };
        let arr = match opts.as_array() {
            Some(a) => a,
            None => {
                return MenuOption::Other;
            },
        };
        let mut options: Vec<(String, i32)> = Vec::new();
        let mut i: usize = 0;
        while i < arr.len()
            decreases arr@.len() - i,
        {
            let pair = match arr[i].as_array() {
                Some(p) => p,
                None => {
                    return MenuOption::Other;
                },
            };
            if pair.len() != 2 {
                return MenuOption::Other;
            }
            let name = match pair[0].as_str() {
                Some(s) => s.to_owned(),
                None => {
                    return MenuOption::Other;
                },
            };
            let id = match pair[1].as_i64() {
                Some(x) => {
                    if -0x80000000i64 <= x && x <= 0x7fffffffi64 {
                        x as i32
                    } else {
                        return MenuOption::Other;
                    }
                },
                None => {
                    return MenuOption::Other;
                },
            };
            options.push((name, id));
            i = i + 1;
        }
        MenuOption::Dropdown { label, options }
    } else if crate::utils::str_eq(kind.as_str(), "color") {
        let label = match option_label_of(v) {
            Some(l) => l,
            None => {
                return MenuOption::Other;
            },
        };
        let show_if = match show_if_of(v) {
            Some(s) => s,
            None => {
                return MenuOption::Other;
            },
        };
        MenuOption::Color { label, show_if }
    } else if crate::utils::str_eq(kind.as_str(), "color-palette") {
        let label = match option_label_of(v) {
            Some(l) => l,
            None => {
                return MenuOption::Other;
            },
        };
        let show_if = match show_if_of(v) {
            Some(s) => s,
            None => {
                return MenuOption::Other;
            },
        };
        MenuOption::ColorPalette { label, show_if }
    } else {
        MenuOption::Other
    }
}

/// The menu options of `menus[*].content[*].content[*]`, flattened in order.
fn menus_of(v: &serde_json::Value) -> Option<Vec<MenuOption>> {
    let menus = match json_get(v, "menus") {
        Some(m) => match m.as_array() {
            Some(a) => a,
            None => {
                return None;
            },
        },
        None => {
            return None;
        },
    };
    let mut out: Vec<MenuOption> = Vec::new();
    let mut i: usize = 0;
    while i < menus.len()
        decreases menus@.len() - i,
    {
        let content = match json_get(&menus[i], "content") {
            Some(c) => match c.as_array() {
                Some(a) => a,
                None => {
                    return None;
                },
            },
            None => {
                return None;
            },
        };
        let mut j: usize = 0;
        while j < content.len()
            decreases content@.len() - j,
        {
            let inner = match json_get(&content[j], "content") {
                Some(c) => match c.as_array() {
                    Some(a) => a,
                    None => {
                        return None;
                    },
                },
                None => {
                    return None;
                },
            };
            let mut k: usize = 0;
            while k < inner.len()
                decreases inner@.len() - k,
            {
                out.push(menu_option_of(&inner[k]));
                k = k + 1;
            }
            j = j + 1;
        }
        i = i + 1;
    }
    Some(out)
}

/// The string entries of `layouts.keymap`, flattened row by row.
fn keymap_of(v: &serde_json::Value) -> Option<Vec<String>> {
    let keymap = match json_get(v, "layouts") {
        Some(l) => match json_get(l, "keymap") {
            Some(k) => match k.as_array() {
                Some(a) => a,
                None => {
                    return None;
                },
            },
            None => {
                return None;
            },
        },
        None => {
            return None;
        },
    };
    let mut out: Vec<String> = Vec::new();
    let mut i: usize = 0;
    while i < keymap.len()
        decreases keymap@.len() - i,
    {
        let row = match keymap[i].as_array() {
            Some(a) => a,
            None => {
                return None;
            },
        };
        let mut j: usize = 0;
        while j < row.len()
            decreases row@.len() - j,
        {
            match row[j].as_str() {
                Some(s) => out.push(s.to_owned()),
                None => {},
            }
            j = j + 1;
        }
        i = i + 1;
    }
    Some(out)
}

/// The plain document a parsed VIA definition reduces to, or nothing where a
/// required field is missing or of the wrong shape.
fn doc_from_json(v: &serde_json::Value) -> Option<ViaDoc> {
    let name = match get_string(v, "name") {
        Some(s) => s,
        None => {
            return None;
        },
    };
    let vendor_id = match get_string(v, "vendorId") {
        Some(s) => s,
        None => {
            return None;
        },
    };
    let product_id = match get_string(v, "productId") {
        Some(s) => s,
        None => {
            return None;
        },
    };
    let matrix = match json_get(v, "matrix") {
        Some(m) => m,
        None => {
            return None;
        },
    };
    let rows = match get_u32(matrix, "rows") {
        Some(x) => x,
        None => {
            return None;
        },
    };
    let cols = match get_u32(matrix, "cols") {
        Some(x) => x,
        None => {
            return None;
        },
    };
    let menus = match menus_of(v) {
        Some(m) => m,
        None => {
            return None;
        },
    };
    let keymap = match keymap_of(v) {
        Some(k) => k,
        None => {
            return None;
        },
    };
    Some(ViaDoc { name, vendor_id, product_id, rows, cols, keymap, menus })
}

/// Whether some reduced VIA document describes this configuration, in the
/// sense of [`crate::config::config_of_doc`].
pub open spec fn doc_described(cfg: Config) -> bool {
    exists|doc: ViaDoc| #[trigger] crate::config::config_of_doc(cfg, doc)
}

impl Config {
    /// Reads a VIA definition from its JSON text: a configuration standing
    /// in the [`crate::config::config_of_doc`] relation to the document the
    /// serde_json walk reduced the text to, or the parse error where the
    /// text is not JSON or lacks a required field. Which documents the walk
    /// accepts cannot be stated over the opaque JSON values; the exact
    /// contract lives on [`Config::from_doc`].
    #[verifier::rlimit(100)]
    #[verifier::spinoff_prover]
    pub fn from_str(json: &str) -> (r: Result<Config, ConfigError>)
        ensures
            r matches Err(e) ==> e == ConfigError::Parse,
            r matches Ok(cfg) ==> doc_described(cfg),
    {
        let parsed = match json_parse(json) {
            Some(p) => p,
            None => {
                return Err(ConfigError::Parse);
            },
        };
        match doc_from_json(&parsed) {
            Some(doc) => {
                let ghost gdoc = doc;
                let cfg = Config::from_doc(doc);
                proof {
                    assert(crate::config::config_of_doc(cfg, gdoc));
                    assert(doc_described(cfg));
                }
                Ok(cfg)
            },
            None => Err(ConfigError::Parse),
        }
    }
}

} // verus!
