use bitcoin_trend::settings::{decimal_string, Mysql, Settings, Startup};

fn sample_settings() -> Settings {
    Settings {
        startup: Startup {
            working_dir: String::from("data"),
            listen_addr: String::from("0.0.0.0:80"),
        },
        mysql: Mysql {
            host: String::from("db_host"),
            port: 3306,
            user: String::from("root"),
            password: String::from("passw0rd"),
            db: String::from("database_1"),
        },
    }
}

#[test]
fn file_gen() {
    let def_settings: Settings = sample_settings();
    let default_config_file_contents = def_settings.to_toml();
    assert_eq!(&default_config_file_contents[..30], "[startup]\nworking_dir = \"data\"");
}

#[test]
fn toml_holds_every_field() {
    let text = sample_settings().to_toml();
    assert_eq!(
        text,
        "[startup]\nworking_dir = \"data\"\nlisten_addr = \"0.0.0.0:80\"\n[mysql]\nhost = \"db_host\"\nport = 3306\nuser = \"root\"\npassword = \"passw0rd\"\ndb = \"database_1\"\n"
    );
}

#[test]
fn decimal_strings() {
    assert_eq!(decimal_string(0), "0");
    assert_eq!(decimal_string(7), "7");
    assert_eq!(decimal_string(3306), "3306");
    assert_eq!(decimal_string(65535), "65535");
    assert_eq!(decimal_string(18446744073709551615), "18446744073709551615");
}
