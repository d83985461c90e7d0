use sampler::ProjBuild;

fn sample_config() -> String {
    [
        "menu \"Project configuration\"",
        "",
        "config WIFI_SSID",
        "    string \"WiFi SSID\"",
        "    default \"myssid\"",
        "",
        "config WIFI_PASSWORD",
        "    string \"WiFi password\"",
        "    default \"examplepass\"",
        "",
        "config MQTT_BROKER",
        "    string \"MQTT broker\"",
        "    default \"mqtt://broker.local:1883\"",
        "",
        "config MQTT_COMMAND_TOPIC",
        "    string \"Command topic\"",
        "    default \"sampler/command\"",
        "",
        "config MQTT_RESPONSE_TOPIC",
        "    string \"Response topic\"",
        "    default \"sampler/response\"",
        "",
        "endmenu",
    ]
    .join("\n")
}

#[test]
fn parses_all_five_settings() {
    let config = ProjBuild::parse(&sample_config()).unwrap();
    assert_eq!(config.wifi_ssid, b"myssid".to_vec());
    assert_eq!(config.wifi_password, b"examplepass".to_vec());
    assert_eq!(config.mqtt_broker, b"mqtt://broker.local:1883".to_vec());
    assert_eq!(config.mqtt_command_topic, b"sampler/command".to_vec());
    assert_eq!(config.mqtt_response_topic, b"sampler/response".to_vec());
}

#[test]
fn last_binding_of_a_repeated_key_wins() {
    let mut text = sample_config();
    text.push_str("\nconfig WIFI_SSID\n    string \"again\"\n    default \"otherssid\"\n");
    let config = ProjBuild::parse(&text).unwrap();
    assert_eq!(config.wifi_ssid, b"otherssid".to_vec());
}

#[test]
fn missing_setting_yields_nothing() {
    let text = "config WIFI_SSID\n    string \"WiFi SSID\"\n    default \"myssid\"\n";
    assert!(ProjBuild::parse(text).is_none());
}

#[test]
fn malformed_entry_yields_nothing() {
    // A header with no value line after the prompt line.
    let text = "config WIFI_SSID\n    string \"WiFi SSID\"";
    assert!(ProjBuild::parse(text).is_none());
    // A header naming no key at all.
    let text2 = "config\n    string \"x\"\n    default \"y\"\n";
    assert!(ProjBuild::parse(text2).is_none());
}

#[test]
fn empty_input_yields_nothing() {
    assert!(ProjBuild::parse("").is_none());
}
