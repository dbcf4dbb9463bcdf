use egregoria::prototypes::CompanyKind;

#[test]
fn company_kind_names() {
    assert_eq!(CompanyKind::from_name("store"), Some(CompanyKind::Store));
    assert_eq!(CompanyKind::from_name("factory"), Some(CompanyKind::Factory));
    assert_eq!(CompanyKind::from_name("Store"), None);
    assert_eq!(CompanyKind::from_name("stor"), None);
    assert_eq!(CompanyKind::from_name(""), None);
}
