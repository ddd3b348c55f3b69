use sonic_gateway::auth::{
    authorize, bearer_token, broker_request, credential, BrokerReply, BrokerRequest, Claims, Evidence,
    TokenReading,
};
use sonic_gateway::config::EnvVarConfig;
use sonic_gateway::fault::{status_for, Fault};

#[test]
fn bearer_header_carries_its_token() {
    assert_eq!(bearer_token("Bearer abc.def.ghi"), Some("abc.def.ghi".to_string()));
    assert_eq!(bearer_token("Bearer abc def"), Some("abc".to_string()));
    assert_eq!(bearer_token("Bearer é"), Some("é".to_string()));
}

#[test]
fn malformed_header_carries_no_token() {
    assert_eq!(bearer_token(""), None);
    assert_eq!(bearer_token("Bearer"), None);
    assert_eq!(bearer_token("Bearer "), None);
    assert_eq!(bearer_token("Bearer  abc"), None);
    assert_eq!(bearer_token("bearer abc"), None);
    assert_eq!(bearer_token("Basic abc"), None);
    assert_eq!(bearer_token(" Bearer abc"), None);
    assert_eq!(bearer_token("abc"), None);
}

#[test]
fn missing_header_is_denied() {
    assert_eq!(credential(None), None);
    assert_eq!(credential(Some("Bearer t")), Some("t".to_string()));
    assert_eq!(credential(Some("t")), None);
}

#[test]
fn broker_is_asked_at_its_verify_address() {
    assert_eq!(
        broker_request("http://localhost:8080", "Bearer abc"),
        Some(BrokerRequest {
            url: "http://localhost:8080/verify".to_string(),
            authorization: "Bearer abc".to_string(),
        })
    );
    assert_eq!(
        broker_request("http://broker", "Bearer abc extra"),
        Some(BrokerRequest {
            url: "http://broker/verify".to_string(),
            authorization: "Bearer abc".to_string(),
        })
    );
    assert_eq!(broker_request("http://localhost:8080", "Basic abc"), None);
    assert_eq!(broker_request("http://localhost:8080", "Bearer"), None);
}

#[test]
fn broker_admits_by_a_status_of_the_200_class() {
    assert!(BrokerReply::Status(200).admits());
    assert!(BrokerReply::Status(204).admits());
    assert!(BrokerReply::Status(299).admits());
    assert!(!BrokerReply::Status(199).admits());
    assert!(!BrokerReply::Status(300).admits());
    assert!(!BrokerReply::Status(401).admits());
    assert!(!BrokerReply::Status(500).admits());
    assert!(!BrokerReply::Unreachable.admits());
}

fn claims(iat: i64, exp: i64) -> Claims {
    Claims { exp, iat, iss: "issuer".to_string(), sub: "subject".to_string() }
}

#[test]
fn claims_hold_from_issue_until_expiry() {
    let c = claims(100, 200);
    assert!(c.holds_at(100));
    assert!(c.holds_at(199));
    assert!(!c.holds_at(200));
    assert!(!c.holds_at(99));
    assert!(!claims(200, 100).holds_at(150));
    assert!(claims(i64::MIN, i64::MAX).holds_at(0));
}

#[test]
fn claims_name_issuer_and_subject() {
    let mut c = claims(100, 200);
    c.iss = String::new();
    assert!(!c.holds_at(150));
    let mut d = claims(100, 200);
    d.sub = String::new();
    assert!(!d.holds_at(150));
}

#[test]
fn only_a_well_signed_token_in_force_is_admitted() {
    assert!(TokenReading::Signed(claims(100, 200)).admits(150));
    assert!(!TokenReading::Signed(claims(100, 200)).admits(250));
    assert!(!TokenReading::Malformed.admits(150));
    assert!(!TokenReading::MisSigned.admits(150));
}

#[test]
fn request_passes_on_evidence_that_admits() {
    let local = Evidence::Local { reading: TokenReading::Signed(claims(100, 200)), now: 150 };
    assert_eq!(authorize(Some(&local)), Ok(()));
    assert_eq!(authorize(Some(&Evidence::Delegated(BrokerReply::Status(200)))), Ok(()));
}

#[test]
fn request_without_good_evidence_is_denied() {
    let late = Evidence::Local { reading: TokenReading::Signed(claims(100, 200)), now: 200 };
    assert_eq!(authorize(Some(&late)), Err(Fault::AuthDenied));
    let forged = Evidence::Local { reading: TokenReading::MisSigned, now: 150 };
    assert_eq!(authorize(Some(&forged)), Err(Fault::AuthDenied));
    assert_eq!(authorize(Some(&Evidence::Delegated(BrokerReply::Status(403)))), Err(Fault::AuthDenied));
    assert_eq!(authorize(Some(&Evidence::Delegated(BrokerReply::Unreachable))), Err(Fault::AuthDenied));
    assert_eq!(authorize(None), Err(Fault::AuthDenied));
    assert_eq!(status_for(&authorize(None)), 401);
}

#[test]
fn each_fault_has_its_status() {
    assert_eq!(Fault::AuthDenied.status(), 401);
    assert_eq!(Fault::BadRequest.status(), 400);
    assert_eq!(Fault::StoreFault.status(), 500);
    assert_eq!(Fault::EngineFault.status(), 500);
    assert_eq!(status_for(&Ok(())), 200);
    assert_eq!(status_for(&Err(Fault::AuthDenied)), 401);
    assert_eq!(status_for(&Err(Fault::EngineFault)), 500);
}

#[test]
fn settings_of_a_run_that_was_given_none() {
    let config = EnvVarConfig::default();
    assert_eq!(config.port, 8888);
    assert_eq!(config.origin, "*");
    assert_eq!(config.db, "db");
    assert!(!config.secure);
    assert_eq!(config.certs, "certs");
    assert_eq!(config.domain, "localhost");
    assert_eq!(config.sonic_server, "localhost:1491");
    assert_eq!(config.sonic_password, "SecretPassword");
    assert_eq!(config.broker, "http://localhost:8080");
}
