use vello::aa::{AaConfig, AaSupport};

#[test]
fn all_supports_every_method() {
    assert_eq!(AaSupport::all(), AaSupport { area: true, msaa8: true, msaa16: true });
}

#[test]
fn area_only_supports_area() {
    assert_eq!(AaSupport::area_only(), AaSupport { area: true, msaa8: false, msaa16: false });
}

#[test]
fn support_from_configs_is_membership() {
    assert_eq!(
        AaSupport::from_configs(&[AaConfig::Msaa16, AaConfig::Msaa16]),
        AaSupport { area: false, msaa8: false, msaa16: true }
    );
    assert_eq!(AaSupport::from_configs(&[]), AaSupport { area: false, msaa8: false, msaa16: false });
    assert_eq!(
        AaSupport::from_configs(&[AaConfig::Msaa8, AaConfig::Area, AaConfig::Msaa16]),
        AaSupport::all()
    );
}
