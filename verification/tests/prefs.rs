use flat_hypercube::prefs::{
    hex, is_disabled_key, HexErrorKind, parse_key, rgb_channels, Axis, Color, GlobalColors, GlobalKeys, Keys,
    Prefs, Side, BACKSPACE_CODE, DISABLED_KEY_CODE, ESCAPE_CODE,
};
use serde_json::Value;

fn prefs_json(select: &str, side: &str, axis_key: &str, layer0: &str, reset_mode: &str) -> String {
    let json = r#"{
    "axes": [
        {
            "pos": {
                "name": "R",
                "color": "ff0000",
                "keys": {
                    "select": "__SELECT__",
                    "side": "__SIDE__"
                }
            },
            "neg": {
                "name": "L",
                "color": "00ff00",
                "keys": {
                    "select": "a",
                    "side": "b"
                }
            },
            "axis_key": "__AXIS_KEY__"
        }
    ],
    "global_keys": {
        "layers": [
            "__LAYER0__"
        ],
        "rotate": "x",
        "scramble": "=",
        "reset": "-",
        "keybind_mode": "\\",
        "axis_mode": "|",
        "undo": "z",
        "redo": "Z",
        "next_filter": "K",
        "prev_filter": "J",
        "live_filter_mode": "F",
        "reset_mode": "__RESET_MODE__",
        "save": "S",
        "rev_start": "Q",
        "rev_stop": "W",
        "rev_unwind": "E",
        "rev_commutator": "R"
    },
    "global_colors": {
        "piece": "808080",
        "filtered": "505050",
        "alert": "d86c6c",
        "clicked": "b0b0b0"
    },
    "damage_repeat": 5,
    "alert_frames": 4
}"#;

    json.replace("__SELECT__", select)
        .replace("__SIDE__", side)
        .replace("__AXIS_KEY__", axis_key)
        .replace("__LAYER0__", layer0)
        .replace("__RESET_MODE__", reset_mode)
}

fn key(v: &Value) -> char {
    parse_key(v.as_str().expect("key text")).expect("key")
}

fn color(v: &Value) -> Color {
    hex(v.as_str().expect("colour text")).expect("colour")
}

fn side(v: &Value) -> Side {
    Side {
        name: v["name"].as_str().unwrap().chars().next().unwrap(),
        color: color(&v["color"]),
        keys: Keys {
            select: key(&v["keys"]["select"]),
            side: key(&v["keys"]["side"]),
        },
    }
}

fn parse_prefs(json: String) -> Prefs {
    let v: Value = serde_json::from_str(&json).expect("prefs json");
    let g = &v["global_keys"];
    let c = &v["global_colors"];
    Prefs {
        axes: v["axes"]
            .as_array()
            .unwrap()
            .iter()
            .map(|a| Axis {
                pos: side(&a["pos"]),
                neg: side(&a["neg"]),
                axis_key: key(&a["axis_key"]),
            })
            .collect(),
        global_keys: GlobalKeys {
            layers: g["layers"].as_array().unwrap().iter().map(key).collect(),
            rotate: key(&g["rotate"]),
            scramble: key(&g["scramble"]),
            reset: key(&g["reset"]),
            keybind_mode: key(&g["keybind_mode"]),
            axis_mode: key(&g["axis_mode"]),
            undo: key(&g["undo"]),
            redo: key(&g["redo"]),
            next_filter: key(&g["next_filter"]),
            prev_filter: key(&g["prev_filter"]),
            live_filter_mode: key(&g["live_filter_mode"]),
            reset_mode: key(&g["reset_mode"]),
            save: key(&g["save"]),
            rev_start: key(&g["rev_start"]),
            rev_stop: key(&g["rev_stop"]),
            rev_unwind: key(&g["rev_unwind"]),
            rev_commutator: key(&g["rev_commutator"]),
        },
        global_colors: GlobalColors {
            piece: color(&c["piece"]),
            filtered: color(&c["filtered"]),
            alert: color(&c["alert"]),
            clicked: color(&c["clicked"]),
        },
        damage_repeat: v["damage_repeat"].as_u64().unwrap() as u8,
        alert_frames: v["alert_frames"].as_u64().unwrap() as u8,
    }
}

fn sample_prefs() -> Prefs {
    parse_prefs(prefs_json("r", "t", "1", "2", "Esc"))
}

#[test]
fn standard_escapes_parse() {
    let prefs = parse_prefs(prefs_json(
        r"\u001b", r"\b", r"\u0000", r"\u001b", r"\u001b",
    ));

    assert_eq!(prefs.global_keys.reset_mode, ESCAPE_CODE);
    assert_eq!(prefs.global_keys.layers[0], ESCAPE_CODE);
    assert_eq!(prefs.axes[0].pos.keys.select, ESCAPE_CODE);
    assert_eq!(prefs.axes[0].pos.keys.side, BACKSPACE_CODE);
    assert_eq!(prefs.axes[0].axis_key, DISABLED_KEY_CODE);
}

#[test]
fn named_aliases_parse() {
    let prefs = parse_prefs(prefs_json(
        "Escape",
        "Backspace",
        "Disabled",
        "Backspace",
        "Escape",
    ));

    assert_eq!(prefs.global_keys.reset_mode, ESCAPE_CODE);
    assert_eq!(prefs.global_keys.layers[0], BACKSPACE_CODE);
    assert_eq!(prefs.axes[0].pos.keys.select, ESCAPE_CODE);
    assert_eq!(prefs.axes[0].pos.keys.side, BACKSPACE_CODE);
    assert_eq!(prefs.axes[0].axis_key, DISABLED_KEY_CODE);
}

#[test]
fn legacy_symbols_parse() {
    let prefs = parse_prefs(prefs_json("⎋", "⌫", "∅", "n", "⎋"));

    assert_eq!(prefs.global_keys.reset_mode, ESCAPE_CODE);
    assert_eq!(prefs.axes[0].pos.keys.select, ESCAPE_CODE);
    assert_eq!(prefs.axes[0].pos.keys.side, BACKSPACE_CODE);
    assert_eq!(prefs.axes[0].axis_key, DISABLED_KEY_CODE);
}

#[test]
fn every_key_alias() {
    for text in ["Esc", "Escape", "\\e", "\\x1b", "\\u001b", "⎋", "\u{1b}"] {
        assert_eq!(parse_key(text), Ok(ESCAPE_CODE), "{text}");
    }
    for text in ["Backspace", "\\b", "\\x08", "\\u0008", "⌫"] {
        assert_eq!(parse_key(text), Ok(BACKSPACE_CODE), "{text}");
    }
    for text in ["None", "Disabled", "\\0", "\\x00", "\\u0000", "∅"] {
        assert_eq!(parse_key(text), Ok(DISABLED_KEY_CODE), "{text}");
    }
    assert_eq!(parse_key("q"), Ok('q'));
    assert_eq!(parse_key("é"), Ok('é'));
    assert_eq!(parse_key("\\"), Ok('\\'));
}

#[test]
fn bad_keys_are_refused_with_the_text_quoted() {
    assert_eq!(
        parse_key("ab"),
        Err("key must be one character or a supported key escape, got \"ab\"".to_string())
    );
    assert_eq!(
        parse_key(""),
        Err("key must be one character or a supported key escape, got \"\"".to_string())
    );
    assert_eq!(
        parse_key("esc"),
        Err("key must be one character or a supported key escape, got \"esc\"".to_string())
    );
    assert_eq!(
        parse_key("a\"b"),
        Err("key must be one character or a supported key escape, got \"a\\\"b\"".to_string())
    );
}

#[test]
fn disabled_key_is_recognised() {
    assert!(is_disabled_key(DISABLED_KEY_CODE));
    assert!(!is_disabled_key('a'));
    assert!(!is_disabled_key(ESCAPE_CODE));
}

#[test]
fn hex_colours_map_to_the_palette() {
    assert_eq!(hex("00ffaf"), Ok(Color::AnsiValue(49)));
    assert_eq!(hex("00FFAF"), Ok(Color::AnsiValue(49)));
    assert_eq!(hex("+00ffaf"), Ok(Color::AnsiValue(49)));
    assert_eq!(hex("ff0000"), Ok(Color::AnsiValue(196)));
    assert_eq!(hex("000000"), Ok(Color::AnsiValue(16)));
    assert_eq!(hex("ffffff"), Ok(Color::AnsiValue(231)));
}

#[test]
fn bad_hex_colours_are_refused() {
    assert_eq!(hex("").unwrap_err().kind, HexErrorKind::Empty);
    assert_eq!(hex("+").unwrap_err().kind, HexErrorKind::InvalidDigit);
    assert_eq!(hex("zz0000").unwrap_err().kind, HexErrorKind::InvalidDigit);
    assert_eq!(hex("#ff0000").unwrap_err().kind, HexErrorKind::InvalidDigit);
    assert_eq!(hex("1ffffffff").unwrap_err().kind, HexErrorKind::PosOverflow);
    assert_eq!(hex(" ff").unwrap_err().kind, HexErrorKind::InvalidDigit);
    assert_eq!(hex("xyz").unwrap_err().error.to_string(), "invalid digit found in string");
    assert_eq!(hex("").unwrap_err().error.to_string(), "cannot parse integer from empty string");
}

#[test]
fn channels_of_a_colour() {
    assert_eq!(rgb_channels(0x123456), (0x12, 0x34, 0x56));
    assert_eq!(rgb_channels(0xab00cd), (0xab, 0x00, 0xcd));
    assert_eq!(rgb_channels(0xff_123456), (0x12, 0x34, 0x56));
}

#[test]
fn sizes_from_the_preferences() {
    let prefs = sample_prefs();
    assert_eq!(prefs.max_dim(), 1);
    assert_eq!(prefs.max_layers(), 3);
    assert_eq!(prefs.pos_keys(), vec!['r']);
    assert_eq!(prefs.damage_repeat, 5);
    assert_eq!(prefs.alert_frames, 4);
    assert_eq!(prefs.axes[0].pos.name, 'R');
    assert_eq!(prefs.global_colors.piece, hex("808080").unwrap());
}

#[test]
fn distinct_keys_validate() {
    assert_eq!(sample_prefs().validate(), Ok(()));
}

#[test]
fn duplicate_select_key_is_reported() {
    let prefs = parse_prefs(prefs_json("a", "t", "1", "2", "Esc"));
    assert_eq!(
        prefs.validate(),
        Err("duplicate select key 'a' in axis 0 neg".to_string())
    );
}

#[test]
fn duplicate_side_key_is_reported() {
    let prefs = parse_prefs(prefs_json("r", "b", "1", "2", "Esc"));
    assert_eq!(
        prefs.validate(),
        Err("duplicate side key 'b' in axis 0 neg".to_string())
    );
}

#[test]
fn select_and_side_keys_may_share_a_key() {
    // the same key as a select key and as a side key is no clash
    let prefs = parse_prefs(prefs_json("b", "a", "1", "2", "Esc"));
    assert_eq!(prefs.validate(), Ok(()));
}

#[test]
fn disabled_keys_never_clash() {
    let mut prefs = parse_prefs(prefs_json("None", "t", "1", "None", "None"));
    prefs.axes[0].neg.keys.select = DISABLED_KEY_CODE;
    assert_eq!(prefs.validate(), Ok(()));
}

#[test]
fn duplicate_axis_key_is_reported() {
    let mut prefs = sample_prefs();
    let mut second = prefs.axes[0];
    second.pos.keys = Keys { select: 'u', side: 'v' };
    second.neg.keys = Keys { select: 'w', side: 'y' };
    prefs.axes.push(second);
    assert_eq!(
        prefs.validate(),
        Err("duplicate axis_key '1' in axis 1".to_string())
    );
    assert_eq!(prefs.max_dim(), 2);
    assert_eq!(prefs.pos_keys(), vec!['r', 'u']);
}

#[test]
fn layer_key_clash_is_reported() {
    let prefs = parse_prefs(prefs_json("r", "t", "1", "t", "Esc"));
    assert_eq!(
        prefs.validate(),
        Err("key 't' in layer key[0] conflicts with an axis key".to_string())
    );
}

#[test]
fn global_key_clash_is_reported() {
    let prefs = parse_prefs(prefs_json("z", "t", "1", "2", "Esc"));
    assert_eq!(
        prefs.validate(),
        Err("key 'z' in global undo conflicts with an axis key".to_string())
    );
    let prefs = parse_prefs(prefs_json("r", "t", "1", "2", "b"));
    assert_eq!(
        prefs.validate(),
        Err("key 'b' in global reset_mode conflicts with an axis key".to_string())
    );
}

#[test]
fn first_clash_wins() {
    // a repeated select key is found before a clashing global key
    let prefs = parse_prefs(prefs_json("a", "t", "1", "2", "b"));
    assert_eq!(
        prefs.validate(),
        Err("duplicate select key 'a' in axis 0 neg".to_string())
    );
}
