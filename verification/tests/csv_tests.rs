use transaction_processor::csv::{
    CSVEntryConvertError, CSVReader, CSVReaderError, CSVWriter,
};
use transaction_processor::numeric::CurrencyAmount;
use transaction_processor::{ReportEntry, Transaction, TransactionType};

#[test]
fn csv_test_parse() {
    let data = r###"
            type, client, tx, amount
            deposit, 1, 1, 1.0
            withdrawal, 2, 5, 3.0,
            dispute,7,10
            resolve,8,11
            chargeback,9,12
        "###;

    let mut reader = CSVReader::new(data.to_string());
    let parsed = reader.read();

    assert_eq!(
        Transaction::new(
            1,
            1,
            TransactionType::Deposit { amount: CurrencyAmount::from_str("1.0").unwrap() }
        ),
        parsed[0].clone().unwrap()
    );

    assert_eq!(
        Transaction::new(
            2,
            5,
            TransactionType::Withdrawal { amount: CurrencyAmount::from_str("3.0").unwrap() }
        ),
        parsed[1].clone().unwrap()
    );

    assert_eq!(
        Transaction::new(7, 10, TransactionType::Dispute),
        parsed[2].clone().unwrap()
    );

    assert_eq!(
        Transaction::new(8, 11, TransactionType::Resolve),
        parsed[3].clone().unwrap()
    );

    assert_eq!(
        Transaction::new(9, 12, TransactionType::Chargeback),
        parsed[4].clone().unwrap()
    );
}

#[test]
fn csv_test_parse_fail() {
    let data = r###"
            type, client, tx, amount
            deposit, 1, 1, 1.0
            unknown, 2, 5, 3.0,
            dispute,7,10
            deposit,1,1
            chargeback,9,12
        "###;

    let mut reader = CSVReader::new(data.to_string());
    let parsed = reader.read();

    assert_eq!(
        Transaction::new(
            1,
            1,
            TransactionType::Deposit { amount: CurrencyAmount::from_str("1.0").unwrap() }
        ),
        parsed[0].clone().unwrap()
    );

    assert!(matches!(
        parsed[1].clone(),
        Err(CSVReaderError::CSVParseError(_))
    ));

    assert_eq!(
        Transaction::new(7, 10, TransactionType::Dispute),
        parsed[2].clone().unwrap()
    );

    assert_eq!(
        Err(CSVReaderError::TransactionParseError(CSVEntryConvertError::MissingAmount)),
        parsed[3].clone()
    );

    assert_eq!(
        Transaction::new(9, 12, TransactionType::Chargeback),
        parsed[4].clone().unwrap()
    );
}

#[test]
fn csv_test_bad_ids() {
    let data = "type,client,tx,amount\ndeposit,70000,1,1.0\ndeposit,1,x,1.0\ndeposit,1,2,nope";
    let mut reader = CSVReader::new(data.to_string());
    let parsed = reader.read();
    assert_eq!(3, parsed.len());
    for row in parsed {
        assert!(matches!(row, Err(CSVReaderError::CSVParseError(_))));
    }
}

#[test]
fn csv_test_write_report() {
    let mut writer = CSVWriter::new();
    writer
        .write(&ReportEntry {
            client: 1,
            available: CurrencyAmount::from_str("1.5").unwrap(),
            held: CurrencyAmount::zero(),
            total: CurrencyAmount::from_str("1.5").unwrap(),
            locked: false,
        })
        .unwrap();
    writer
        .write(&ReportEntry {
            client: 2,
            available: CurrencyAmount::from_str("-0.25").unwrap(),
            held: CurrencyAmount::from_str("3.00").unwrap(),
            total: CurrencyAmount::from_str("2.75").unwrap(),
            locked: true,
        })
        .unwrap();
    assert_eq!(
        "client,available,held,total,locked\n1,1.5,0,1.5,false\n2,-0.25,3.00,2.75,true\n",
        writer.output().as_str()
    );
}
