use email_manager::EmailAccount;

fn sorted(mut v: Vec<String>) -> Vec<String> {
    v.sort();
    v
}

#[test]
fn test_email_account() {
    let mut account = EmailAccount::new("123456@gmail.com".to_string(), "password".to_string());
    account.add_service("keeta".to_string());
    account.add_service("gmail".to_string());
    account.remove_service("gmail".to_string());

    assert_eq!(account.get_email(), "123456@gmail.com");
    assert_eq!(account.get_password(), "password");
    assert_eq!(account.get_service(&"keeta".to_string()), Some(true));
    assert_eq!(account.get_service(&"gmail".to_string()), None);
}

#[test]
fn new_account_has_no_services() {
    let account = EmailAccount::new("a@x.com".to_string(), "p1".to_string());
    assert!(account.get_services().is_empty());
    assert_eq!(account.get_email(), "a@x.com");
    assert_eq!(account.get_password(), "p1");
}

#[test]
fn adding_a_service_twice_is_like_adding_it_once() {
    let mut once = EmailAccount::new("a@x.com".to_string(), "p".to_string());
    once.add_service("keeta".to_string());
    let mut twice = EmailAccount::new("a@x.com".to_string(), "p".to_string());
    twice.add_service("keeta".to_string());
    twice.add_service("keeta".to_string());
    assert_eq!(sorted(once.get_services()), sorted(twice.get_services()));
    assert_eq!(twice.get_services(), vec!["keeta".to_string()]);
    assert_eq!(twice.get_service(&"keeta".to_string()), Some(true));
}

#[test]
fn removing_an_absent_service_changes_nothing() {
    let mut account = EmailAccount::new("a@x.com".to_string(), "p".to_string());
    account.add_service("keeta".to_string());
    account.add_service("gmail".to_string());
    let before = sorted(account.get_services());
    account.remove_service("outlook".to_string());
    assert_eq!(sorted(account.get_services()), before);
    assert_eq!(before, vec!["gmail".to_string(), "keeta".to_string()]);
}

#[test]
fn set_service_keeps_a_false_flag_and_add_overwrites_it() {
    let mut account = EmailAccount::new("a@x.com".to_string(), "p".to_string());
    account.set_service("keeta".to_string(), false);
    assert_eq!(account.get_service(&"keeta".to_string()), Some(false));
    assert!(account.has_service(&"keeta".to_string()));
    account.add_service("keeta".to_string());
    assert_eq!(account.get_service(&"keeta".to_string()), Some(true));
    assert_eq!(account.get_services().len(), 1);
}

#[test]
fn services_are_listed_once_each() {
    let mut account = EmailAccount::new("a@x.com".to_string(), "p".to_string());
    account.add_service("c".to_string());
    account.add_service("a".to_string());
    account.add_service("b".to_string());
    account.add_service("a".to_string());
    account.remove_service("c".to_string());
    assert_eq!(sorted(account.get_services()), vec!["a".to_string(), "b".to_string()]);
    assert!(!account.has_service(&"c".to_string()));
}

#[test]
fn snapshot_is_detached_from_the_account() {
    let mut account = EmailAccount::new("a@x.com".to_string(), "p".to_string());
    account.add_service("keeta".to_string());
    let copy = account.snapshot();
    account.remove_service("keeta".to_string());
    assert_eq!(copy.get_service(&"keeta".to_string()), Some(true));
    assert_eq!(copy.get_email(), "a@x.com");
    assert_eq!(copy.get_password(), "p");
    assert_eq!(account.get_service(&"keeta".to_string()), None);
}
