use kicad_cdb::nets::{identify_high_speed_nets, power_net_name};
use kicad_cdb::schema::{final_version, pending_migrations, MIGRATION_COUNT};
use kicad_cdb::silk::{silk_plan, SilkFootprint, SilkPlan};

#[test]
fn power_net_names() {
    assert!(power_net_name("GND"));
    assert!(power_net_name("gnd"));
    assert!(!power_net_name("AGND"));
    assert!(power_net_name("+3V3"));
    assert!(power_net_name("VCC_IO"));
    assert!(power_net_name("P12V"));
    assert!(!power_net_name("SDA"));
}

#[test]
fn high_speed_nets_by_name() {
    let nets = vec![
        (1, "DDR3_DQ0".to_string()),
        (2, "LED1".to_string()),
        (3, "usb_dp".to_string()),
        (4, "eth_tx".to_string()),
        (5, "GND".to_string()),
        (6, "adc_in".to_string()),
    ];
    let hs = identify_high_speed_nets(&nets);
    let mut ids: Vec<u32> = hs.into_iter().collect();
    ids.sort();
    assert_eq!(ids, vec![1, 3, 4, 6]);
    assert!(identify_high_speed_nets(&[]).is_empty());
}

#[test]
fn migrations_pending() {
    assert_eq!(pending_migrations(0, MIGRATION_COUNT), vec![1, 2, 3, 4, 5, 6, 7, 8, 9]);
    assert_eq!(pending_migrations(7, MIGRATION_COUNT), vec![8, 9]);
    assert!(pending_migrations(9, MIGRATION_COUNT).is_empty());
    assert!(pending_migrations(12, MIGRATION_COUNT).is_empty());
    assert_eq!(final_version(3, MIGRATION_COUNT), 9);
    assert_eq!(final_version(12, MIGRATION_COUNT), 12);
}

fn fp(lib: &str, value: &str, has_silk: bool, has_courtyard: bool, nets: &[&str]) -> SilkFootprint {
    SilkFootprint {
        lib_id: lib.to_string(),
        value: value.to_string(),
        has_silk,
        has_courtyard,
        pad_net_names: nets.iter().map(|s| s.to_string()).collect(),
    }
}

#[test]
fn silk_plans() {
    assert_eq!(silk_plan(&fp("Package_SO:SOIC-8", "", false, false, &[])), None);
    assert_eq!(silk_plan(&fp("Package_SO:SOIC-8", "", true, true, &["A", "B", "C"])), None);
    assert_eq!(
        silk_plan(&fp("Package_SO:SOIC-8", "LM358", false, false, &["A", "B", "C"])),
        Some(SilkPlan { courtyard: true, polarity_pad: None, pin1_dot: true })
    );
    assert_eq!(
        silk_plan(&fp("Package_SO:SOIC-8", "LM358", false, true, &["A", "B", "C"])),
        Some(SilkPlan { courtyard: false, polarity_pad: None, pin1_dot: true })
    );
    assert_eq!(
        silk_plan(&fp("Capacitor_SMD:CP_Elec_6.3x5.4", "100µF", false, false, &["gnd", "VBUS"])),
        Some(SilkPlan { courtyard: true, polarity_pad: Some(0), pin1_dot: false })
    );
    assert_eq!(
        silk_plan(&fp("Capacitor_SMD:CP_Elec_6.3x5.4", "100uF", false, true, &["VIN", "PGND"])),
        Some(SilkPlan { courtyard: false, polarity_pad: Some(1), pin1_dot: false })
    );
    assert_eq!(
        silk_plan(&fp("Capacitor_SMD:CP_Elec_6.3x5.4", "100uF", false, true, &["VIN", "VOUT"])),
        Some(SilkPlan { courtyard: false, polarity_pad: None, pin1_dot: false })
    );
    assert_eq!(
        silk_plan(&fp("Connector_PinHeader:1x03", "", false, false, &["A", "B", "C"])),
        Some(SilkPlan { courtyard: true, polarity_pad: None, pin1_dot: false })
    );
    assert_eq!(
        silk_plan(&fp("Resistor_SMD:R_0402", "10k", true, false, &["A", "B"])),
        Some(SilkPlan { courtyard: true, polarity_pad: None, pin1_dot: false })
    );
}
