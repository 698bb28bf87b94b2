use bullet::binary64::Binary64;
use bullet::calendar::TimeOfDay;
use bullet::live::config::{
    secret, CtpdConfig, InstrumentConfig, LinkitConfig, LiveConfig, RemoteAccountConfig,
};

fn of(value: f64) -> Binary64 {
    Binary64::from_bits(value.to_bits())
}

fn instrument(symbol: &str, market: &str, target: &str) -> InstrumentConfig {
    InstrumentConfig {
        symbol: symbol.into(),
        market_instrument_id: market.into(),
        target_instrument_id: target.into(),
        parquet: "/unused".into(),
        full_weight_contracts: of(10.0),
        contract_multiplier: of(300.0),
        session_bar_count: 240,
        session_end_time: "15:00:00".into(),
    }
}

fn valid_config() -> LiveConfig {
    LiveConfig {
        account_id: "BULLET/lab0334-sim".into(),
        bind_address: "127.0.0.1:8091".into(),
        history_seed_bars: 1_000_000,
        ctpd: CtpdConfig {
            base_url: "https://ctpd.example.test".into(),
            bearer_token_file: "/unused".into(),
            stale_after_ms: 10_000,
        },
        remote_account: RemoteAccountConfig {
            allow_unauthenticated: false,
            bearer_token_file: Some("/unused".into()),
        },
        linkit: None,
        instruments: vec![
            instrument("IC8888", "IDX-CFFEX-IC", "IC2609"),
            instrument("IF8888", "IDX-CFFEX-IF", "IF2609"),
            instrument("IH8888", "IDX-CFFEX-IH", "IH2609"),
            instrument("IM8888", "IDX-CFFEX-IM", "IM2609"),
        ],
    }
}

#[test]
fn requires_the_complete_lab0334_universe() {
    let mut config = valid_config();
    config.instruments.pop();
    assert!(config.validate().unwrap_err().contains("exactly"));
}

#[test]
fn rejects_duplicate_target_instruments() {
    let mut config = valid_config();
    config.instruments[1].target_instrument_id = "IC2609".into();
    assert!(
        config
            .validate()
            .unwrap_err()
            .contains("target_instrument_id")
    );
}

#[test]
fn a_complete_configuration_is_accepted() {
    assert_eq!(valid_config().validate(), Ok(()));
}

#[test]
fn every_part_of_a_configuration_is_checked() {
    let refused = |change: &dyn Fn(&mut LiveConfig)| {
        let mut config = valid_config();
        change(&mut config);
        config.validate().unwrap_err()
    };
    assert_eq!(
        refused(&|config| config.account_id = "\u{2003} ".into()),
        "account_id must not be empty"
    );
    assert_eq!(
        refused(&|config| config.history_seed_bars = 4_999),
        "history_seed_bars must be at least 5000 for lab0334 ATR history"
    );
    assert_eq!(
        refused(&|config| config.ctpd.stale_after_ms = 0),
        "ctpd base_url and stale_after_ms must be configured"
    );
    assert_eq!(
        refused(&|config| {
            config.linkit = Some(LinkitConfig {
                base_url: "https://linkit.example.test".into(),
                bearer_token_file: "/unused".into(),
                recipient_username: " ".into(),
            })
        }),
        "linkit base_url and recipient_username must be configured"
    );
    assert_eq!(
        refused(&|config| config.instruments[0].session_end_time = "3 pm".into()),
        "each session_end_time must be HH:MM:SS"
    );
    let unusable = "each lab0334 instrument requires the 240-bar 15:00:00 session, names, and positive finite contract sizing";
    assert_eq!(
        refused(&|config| config.instruments[0].session_end_time = "14:59:59".into()),
        unusable
    );
    assert_eq!(
        refused(&|config| config.instruments[3].session_bar_count = 239),
        unusable
    );
    assert_eq!(
        refused(&|config| config.instruments[2].contract_multiplier = of(f64::INFINITY)),
        unusable
    );
    assert_eq!(
        refused(&|config| config.instruments[2].full_weight_contracts = of(-0.0)),
        unusable
    );
    assert_eq!(
        refused(&|config| config.instruments[1].market_instrument_id = "IDX-CFFEX-IC".into()),
        "market_instrument_id must be unique"
    );
    assert_eq!(
        refused(&|config| config.instruments[1].symbol = "IX8888".into()),
        "lab0334 symbols must be IC8888, IF8888, IH8888 and IM8888"
    );
}

#[test]
fn the_account_chooses_between_a_token_and_none() {
    let mut config = valid_config();
    assert_eq!(
        config.remote_token_file().map(|path| path.cloned()),
        Ok(Some("/unused".to_owned()))
    );
    config.remote_account.allow_unauthenticated = true;
    assert_eq!(
        config.remote_token_file(),
        Err("remote_account cannot set a token when allow_unauthenticated=true".to_owned())
    );
    config.remote_account.bearer_token_file = None;
    assert_eq!(config.remote_token_file(), Ok(None));
    config.remote_account.allow_unauthenticated = false;
    assert_eq!(
        config.remote_token_file(),
        Err(
            "remote_account requires bearer_token_file when allow_unauthenticated=false".to_owned()
        )
    );
}

#[test]
fn a_secret_is_trimmed_and_not_empty() {
    assert_eq!(secret("/token", " abc\n"), Ok("abc".to_owned()));
    assert_eq!(
        secret("/token", "\t\r\n"),
        Err("secret file /token is empty".to_owned())
    );
}

#[test]
fn sessions_end_at_three() {
    let config = valid_config();
    let at = |seconds| {
        Some(TimeOfDay {
            seconds,
            nanoseconds: 0,
        })
    };
    assert_eq!(config.validate_with(&[at(54_000); 4]), Ok(()));
    assert_eq!(
        config.validate_with(&[at(54_000), at(54_000), None, at(54_001)]),
        Err("each session_end_time must be HH:MM:SS".to_owned())
    );
    assert!(config
        .validate_with(&[at(54_000), at(54_001), None, at(54_000)])
        .unwrap_err()
        .starts_with("each lab0334 instrument requires"));
}
