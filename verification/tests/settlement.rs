use multisend::calculate_balance_changes;
use multisend::denom_definition as make_definition;
use multisend::{balance, coin, Balance, DenomDefinition, MultiSend, Rate, TransferError};

fn rate(r: f64) -> Rate {
    Rate::from_ppm((r * 1_000_000.0).round() as u32)
}

fn denom_definition(
    denom: &str,
    issuer: &str,
    burn_rate: f64,
    commission_rate: f64,
) -> DenomDefinition {
    make_definition(denom, issuer, rate(burn_rate), rate(commission_rate))
}

fn test_calculate_balance_changes(
    original_balances: Vec<Balance>,
    definitions: Vec<DenomDefinition>,
    multi_send_tx: MultiSend,
    expected_changes: Vec<Balance>,
) {
    let result = calculate_balance_changes(original_balances, definitions, multi_send_tx);
    assert!(result.is_ok());

    let changes = result.unwrap();
    assert_eq!(changes.len(), expected_changes.len());

    for change in changes {
        assert!(expected_changes.contains(&change));
    }
}

#[test]
fn test_case_1() {
    let original_balances = vec![
        balance("account1", vec![coin("denom1", 1000_000)]),
        balance("account2", vec![coin("denom2", 1000_000)]),
    ];

    let definitions = vec![
        denom_definition("denom1", "issuer_account_A", 0.08, 0.12),
        denom_definition("denom2", "issuer_account_B", 1.0, 0.0),
    ];

    let multi_send_tx = MultiSend {
        inputs: vec![
            balance("account1", vec![coin("denom1", 1000)]),
            balance("account2", vec![coin("denom2", 1000)]),
        ],
        outputs: vec![balance(
            "account_recipient",
            vec![coin("denom1", 1000), coin("denom2", 1000)],
        )],
    };

    let expected_changes = vec![
        balance(
            "account_recipient",
            vec![coin("denom1", 1000), coin("denom2", 1000)],
        ),
        balance("issuer_account_A", vec![coin("denom1", 120)]),
        balance("account1", vec![coin("denom1", -1200)]),
        balance("account2", vec![coin("denom2", -2000)]),
    ];

    test_calculate_balance_changes(
        original_balances,
        definitions,
        multi_send_tx,
        expected_changes,
    );
}

#[test]
fn test_case_2() {
    let original_balances = vec![
        balance("account1", vec![coin("denom1", 1000_000)]),
        balance("account2", vec![coin("denom1", 1000_000)]),
    ];

    let definitions = vec![denom_definition("denom1", "issuer_account_A", 0.08, 0.12)];

    let multi_send_tx = MultiSend {
        inputs: vec![
            balance("account1", vec![coin("denom1", 650)]),
            balance("account2", vec![coin("denom1", 350)]),
        ],
        outputs: vec![
            balance("account_recipient", vec![coin("denom1", 500)]),
            balance("issuer_account_A", vec![coin("denom1", 500)]),
        ],
    };

    let expected_changes = vec![
        balance("account_recipient", vec![coin("denom1", 500)]),
        balance("issuer_account_A", vec![coin("denom1", 560)]),
        balance("account1", vec![coin("denom1", -715)]),
        balance("account2", vec![coin("denom1", -385)]),
    ];

    test_calculate_balance_changes(
        original_balances,
        definitions,
        multi_send_tx,
        expected_changes,
    );
}

#[test]
fn test_case_3() {
    let original_balances = vec![
        balance(
            "account1",
            vec![coin("denom1", 1000_000), coin("denom2", 1000_000)],
        ),
        balance(
            "account2",
            vec![coin("denom1", 1000_000), coin("denom2", 1000_000)],
        ),
    ];

    let definitions = vec![
        denom_definition("denom1", "issuer_account_A", 0.08, 0.12),
        denom_definition("denom2", "issuer_account_A", 1.0, 0.0),
    ];

    let multi_send_tx = MultiSend {
        inputs: vec![
            balance("account1", vec![coin("denom1", 650), coin("denom2", 300)]),
            balance("account2", vec![coin("denom1", 350), coin("denom2", 500)]),
        ],
        outputs: vec![
            balance(
                "account_recipient",
                vec![coin("denom1", 500), coin("denom2", 500)],
            ),
            balance(
                "issuer_account_A",
                vec![coin("denom1", 500), coin("denom2", 300)],
            ),
        ],
    };

    let expected_changes = vec![
        balance(
            "account_recipient",
            vec![coin("denom1", 500), coin("denom2", 500)],
        ),
        balance(
            "issuer_account_A",
            vec![coin("denom1", 560), coin("denom2", 300)],
        ),
        balance("account1", vec![coin("denom1", -715), coin("denom1", -487)]),
        balance("account2", vec![coin("denom2", -385), coin("denom2", -812)]),
    ];

    test_calculate_balance_changes(
        original_balances,
        definitions,
        multi_send_tx,
        expected_changes,
    );
}

#[test]
fn test_case_4() {
    let original_balances = vec![
        balance("account1", vec![coin("denom1", 1000)]),
        balance("account2", vec![coin("denom1", 1000)]),
    ];

    let definitions = vec![denom_definition("denom1", "issuer_account_A", 0.01, 0.01)];

    let multi_send_tx = MultiSend {
        inputs: vec![
            balance("account1", vec![coin("denom1", 1)]),
            balance("account2", vec![coin("denom1", 1)]),
        ],
        outputs: vec![balance("account_recipient", vec![coin("denom1", 2)])],
    };

    let expected_changes = vec![
        balance("account_recipient", vec![coin("denom1", 2)]),
        balance("issuer_account_A", vec![coin("denom1", 2)]),
        balance("account1", vec![coin("denom1", -3)]),
        balance("account2", vec![coin("denom1", -3)]),
    ];

    test_calculate_balance_changes(
        original_balances,
        definitions,
        multi_send_tx,
        expected_changes,
    );
}

#[test]
fn test_case_5() {
    let original_balances = vec![
        balance("account1", vec![coin("denom1", 1000_000)]),
        balance("account2", vec![coin("denom1", 1000_000)]),
        balance("issuer_account_A", vec![coin("denom1", 1000_000)]),
    ];

    let definitions = vec![denom_definition("denom1", "issuer_account_A", 0.1, 0.0)];

    let multi_send_tx = MultiSend {
        inputs: vec![
            balance("account1", vec![coin("denom1", 60)]),
            balance("account2", vec![coin("denom1", 90)]),
            balance("issuer_account_A", vec![coin("denom1", 25)]),
        ],
        outputs: vec![
            balance("account_recipient_A", vec![coin("denom1", 50)]),
            balance("issuer_account_A", vec![coin("denom1", 100)]),
            balance("account_recipient_B", vec![coin("denom1", 25)]),
        ],
    };

    let expected_changes = vec![
        balance("account_recipient_A", vec![coin("denom1", 50)]),
        balance("account_recipient_B", vec![coin("denom1", 25)]),
        balance("issuer_account_A", vec![coin("denom1", 75)]),
        balance("account1", vec![coin("denom1", -63)]),
        balance("account2", vec![coin("denom1", -94)]),
    ];

    test_calculate_balance_changes(
        original_balances,
        definitions,
        multi_send_tx,
        expected_changes,
    );
}

#[test]
fn test_case_6() {
    let original_balances = vec![
        balance("account1", vec![coin("denom1", 1000)]),
        balance("account2", vec![coin("denom2", 1000)]),
    ];

    let definitions = vec![
        denom_definition("denom1", "issuer_account_A", 0.08, 0.12),
        denom_definition("denom2", "issuer_account_B", 1.0, 0.0),
    ];

    let multi_send_tx = MultiSend {
        inputs: vec![
            balance("account1", vec![coin("denom1", 1000)]),
            balance("account2", vec![coin("denom2", 1000)]),
        ],
        outputs: vec![balance(
            "account_recipient",
            vec![coin("denom1", 1000), coin("denom2", 1000)],
        )],
    };

    let result = calculate_balance_changes(original_balances, definitions, multi_send_tx);

    assert!(result.is_err())
}

#[test]
fn test_case_7() {
    let original_balances = vec![
        balance("account1", vec![coin("denom1", 2000)]),
        balance("account2", vec![coin("denom2", 2000)]),
    ];

    let definitions = vec![
        denom_definition("denom1", "issuer_account_A", 0.08, 0.12),
        denom_definition("denom2", "issuer_account_B", 1.0, 0.0),
    ];

    let multi_send_tx = MultiSend {
        inputs: vec![
            balance("account1", vec![coin("denom1", 1000)]),
            balance("account2", vec![coin("denom2", 1000)]),
        ],
        outputs: vec![balance(
            "account_recipient",
            vec![coin("denom1", 1500), coin("denom2", 1000)],
        )],
    };

    let result = calculate_balance_changes(original_balances, definitions, multi_send_tx);

    assert!(result.is_err());
}

#[test]
fn undefined_denomination_is_reported() {
    let original_balances = vec![balance("account1", vec![coin("denom1", 1000)])];
    let definitions = vec![denom_definition("denom1", "issuer_account_A", 0.0, 0.0)];
    let multi_send_tx = MultiSend {
        inputs: vec![balance("account1", vec![coin("denom_unknown", 10)])],
        outputs: vec![balance("account_recipient", vec![coin("denom_unknown", 10)])],
    };
    let result = calculate_balance_changes(original_balances, definitions, multi_send_tx);
    assert_eq!(result.unwrap_err(), TransferError::UndefinedDenomination);
}

#[test]
fn imbalanced_transfer_is_reported() {
    let original_balances = vec![balance("account1", vec![coin("denom1", 1000)])];
    let definitions = vec![denom_definition("denom1", "issuer_account_A", 0.0, 0.0)];
    let multi_send_tx = MultiSend {
        inputs: vec![balance("account1", vec![coin("denom1", 10)])],
        outputs: vec![balance("account_recipient", vec![coin("denom1", 11)])],
    };
    let result = calculate_balance_changes(original_balances, definitions, multi_send_tx);
    assert_eq!(result.unwrap_err(), TransferError::ImbalancedTransfer);
}

#[test]
fn output_only_denomination_is_imbalanced() {
    let original_balances = vec![balance("account1", vec![coin("denom1", 1000)])];
    let definitions = vec![
        denom_definition("denom1", "issuer_account_A", 0.0, 0.0),
        denom_definition("denom2", "issuer_account_B", 0.0, 0.0),
    ];
    let multi_send_tx = MultiSend {
        inputs: vec![balance("account1", vec![coin("denom1", 10)])],
        outputs: vec![balance(
            "account_recipient",
            vec![coin("denom1", 10), coin("denom2", 5)],
        )],
    };
    let result = calculate_balance_changes(original_balances, definitions, multi_send_tx);
    assert_eq!(result.unwrap_err(), TransferError::ImbalancedTransfer);
}

#[test]
fn insufficient_balance_is_reported() {
    let original_balances = vec![
        balance("account1", vec![coin("denom1", 1000)]),
        balance("account2", vec![coin("denom1", 1000_000)]),
    ];
    let definitions = vec![denom_definition("denom1", "issuer_account_A", 0.08, 0.12)];
    let multi_send_tx = MultiSend {
        inputs: vec![
            balance("account1", vec![coin("denom1", 1000)]),
            balance("account2", vec![coin("denom1", 1000)]),
        ],
        outputs: vec![balance("account_recipient", vec![coin("denom1", 2000)])],
    };
    let result = calculate_balance_changes(original_balances, definitions, multi_send_tx);
    assert_eq!(result.unwrap_err(), TransferError::InsufficientBalance);
}

#[test]
fn missing_ledger_entry_is_insufficient() {
    let original_balances = vec![balance("account1", vec![coin("denom2", 1000)])];
    let definitions = vec![
        denom_definition("denom1", "issuer_account_A", 0.0, 0.0),
        denom_definition("denom2", "issuer_account_A", 0.0, 0.0),
    ];
    let multi_send_tx = MultiSend {
        inputs: vec![balance("account1", vec![coin("denom1", 10)])],
        outputs: vec![balance("account_recipient", vec![coin("denom1", 10)])],
    };
    let result = calculate_balance_changes(original_balances, definitions, multi_send_tx);
    assert_eq!(result.unwrap_err(), TransferError::InsufficientBalance);
}

#[test]
fn issuer_pays_no_fees_as_sender() {
    let original_balances = vec![balance("issuer_account_A", vec![coin("denom1", 1000)])];
    let definitions = vec![denom_definition("denom1", "issuer_account_A", 0.5, 0.5)];
    let multi_send_tx = MultiSend {
        inputs: vec![balance("issuer_account_A", vec![coin("denom1", 100)])],
        outputs: vec![balance("account_recipient", vec![coin("denom1", 100)])],
    };
    let expected_changes = vec![
        balance("issuer_account_A", vec![coin("denom1", -100)]),
        balance("account_recipient", vec![coin("denom1", 100)]),
    ];
    test_calculate_balance_changes(
        original_balances,
        definitions,
        multi_send_tx,
        expected_changes,
    );
}

#[test]
fn higher_burn_rate_never_lowers_the_fee() {
    let mut previous: i128 = 0;
    for ppm in [0u32, 10_000, 80_000, 500_000, 1_000_000] {
        let original_balances = vec![balance("account1", vec![coin("denom1", 1000_000)])];
        let definitions = vec![make_definition(
            "denom1",
            "issuer_account_A",
            Rate::from_ppm(ppm),
            Rate::from_ppm(0),
        )];
        let multi_send_tx = MultiSend {
            inputs: vec![balance("account1", vec![coin("denom1", 777)])],
            outputs: vec![balance("account_recipient", vec![coin("denom1", 777)])],
        };
        let changes =
            calculate_balance_changes(original_balances, definitions, multi_send_tx).unwrap();
        let debit = changes
            .iter()
            .find(|b| b.address == "account1")
            .unwrap()
            .coins[0]
            .amount;
        let fee = -debit - 777;
        assert!(fee >= previous);
        previous = fee;
    }
}

#[test]
fn supply_drops_by_exactly_the_burn() {
    // Same shape as the two-sender scenario: burns are 26 and 14, so the
    // signed deltas over every account must sum to -40.
    let original_balances = vec![
        balance("account1", vec![coin("denom1", 1000_000)]),
        balance("account2", vec![coin("denom1", 1000_000)]),
    ];
    let definitions = vec![denom_definition("denom1", "issuer_account_A", 0.08, 0.12)];
    let multi_send_tx = MultiSend {
        inputs: vec![
            balance("account1", vec![coin("denom1", 650)]),
            balance("account2", vec![coin("denom1", 350)]),
        ],
        outputs: vec![
            balance("account_recipient", vec![coin("denom1", 500)]),
            balance("issuer_account_A", vec![coin("denom1", 500)]),
        ],
    };
    let changes =
        calculate_balance_changes(original_balances, definitions, multi_send_tx).unwrap();
    let total: i128 = changes
        .iter()
        .flat_map(|b| b.coins.iter())
        .map(|c| c.amount)
        .sum();
    assert_eq!(total, -40);
}

#[test]
fn empty_transfer_keeps_snapshot_accounts_with_zero_deltas() {
    let original_balances = vec![balance("account1", vec![coin("denom1", 1000)])];
    let definitions = vec![denom_definition("denom1", "issuer_account_A", 0.1, 0.1)];
    let multi_send_tx = MultiSend {
        inputs: vec![],
        outputs: vec![],
    };
    let changes =
        calculate_balance_changes(original_balances, definitions, multi_send_tx).unwrap();
    assert_eq!(changes.len(), 1);
    assert_eq!(changes[0].address, "account1");
    assert_eq!(changes[0].coins.len(), 1);
    assert_eq!(changes[0].coins[0].amount, 0);
}
