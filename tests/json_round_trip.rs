use email_manager::{EmailAccount, EmailManager};
use serde_json::Value;

fn encode(manager: &EmailManager) -> String {
    let mut accounts = serde_json::Map::new();
    for account in manager.get_accounts() {
        let mut services = serde_json::Map::new();
        for name in account.get_services() {
            let enabled = account.get_service(&name).unwrap();
            services.insert(name, Value::Bool(enabled));
        }
        let mut record = serde_json::Map::new();
        record.insert("email".to_string(), Value::String(account.get_email()));
        record.insert("password".to_string(), Value::String(account.get_password()));
        record.insert("services".to_string(), Value::Object(services));
        accounts.insert(account.get_email(), Value::Object(record));
    }
    let mut top = serde_json::Map::new();
    top.insert("accounts".to_string(), Value::Object(accounts));
    serde_json::to_string(&Value::Object(top)).unwrap()
}

fn decode(data: &str) -> EmailManager {
    let top: Value = serde_json::from_str(data).unwrap();
    let mut accounts = Vec::new();
    for (_, record) in top.get("accounts").unwrap().as_object().unwrap() {
        let email = record.get("email").unwrap().as_str().unwrap().to_string();
        let password = record.get("password").unwrap().as_str().unwrap().to_string();
        let mut account = EmailAccount::new(email, password);
        for (name, enabled) in record.get("services").unwrap().as_object().unwrap() {
            account.set_service(name.clone(), enabled.as_bool().unwrap());
        }
        accounts.push(account);
    }
    EmailManager::from_stored(Some(accounts))
}

fn summary(manager: &EmailManager) -> Vec<(String, String, Vec<(String, bool)>)> {
    let mut out = Vec::new();
    for account in manager.get_accounts() {
        let mut services: Vec<(String, bool)> = account
            .get_services()
            .into_iter()
            .map(|s| {
                let flag = account.get_service(&s).unwrap();
                (s, flag)
            })
            .collect();
        services.sort();
        out.push((account.get_email(), account.get_password(), services));
    }
    out.sort();
    out
}

#[test]
fn json_round_trip_keeps_every_account() {
    let mut manager = EmailManager::new();
    manager.add_account("a@x.com".to_string(), "p1".to_string());
    manager.add_account("b@y.com".to_string(), "p2".to_string());
    manager.get_account("a@x.com".to_string()).unwrap().add_service("keeta".to_string());
    manager.get_account("b@y.com".to_string()).unwrap().add_service("gmail".to_string());
    manager.get_account("b@y.com".to_string()).unwrap().set_service("old".to_string(), false);

    let data = encode(&manager);
    let reloaded = decode(&data);
    assert_eq!(summary(&reloaded), summary(&manager));
    assert_eq!(reloaded.get_accounts().len(), 2);
    let missing = reloaded.get_email_without_service("keeta".to_string());
    assert_eq!(missing.len(), 1);
    assert_eq!(missing[0].get_email(), "b@y.com");
}

#[test]
fn json_of_an_empty_registry_reloads_empty() {
    let manager = EmailManager::new();
    let data = encode(&manager);
    assert_eq!(data, "{\"accounts\":{}}");
    assert!(decode(&data).get_accounts().is_empty());
}
