use aoc25::events::FromEvent;

#[derive(Debug, Clone, PartialEq)]
struct Account {
    id: usize,
    balance: usize,
}

impl Default for Account {
    fn default() -> Self {
        Self {
            id: 1234,
            balance: 0,
        }
    }
}

#[derive(Debug, Clone, PartialEq)]
enum AccountEvent {
    Withdraw { amount: usize },
    Deposit { amount: usize },
}

impl FromEvent for Account {
    type Event = AccountEvent;
    type Error = anyhow::Error;

    fn add_event(mut self, event: Self::Event) -> Result<Self, Self::Error> {
        match event {
            AccountEvent::Withdraw { amount } => {
                if !(self.balance >= amount) {
                    return Err(anyhow::Error::msg("not enough funds"));
                }
                self.balance -= amount;
            }
            AccountEvent::Deposit { amount } => {
                self.balance += amount;
            }
        }
        Ok(self)
    }
}

#[test]
fn test_combine() {
    let initial = Account {
        id: 1234,
        balance: 0,
    };

    let evs = vec![
        AccountEvent::Deposit { amount: 100 },
        AccountEvent::Deposit { amount: 100 },
        AccountEvent::Withdraw { amount: 150 },
    ];

    let result = initial.add_events(evs);

    assert!(result.is_ok());
    let acc = result.unwrap();
    assert_eq!(acc.balance, 50);
}

#[test]
fn test_combine_err() {
    let initial = Account {
        id: 1234,
        balance: 0,
    };

    let evs = vec![
        AccountEvent::Deposit { amount: 100 },
        AccountEvent::Withdraw { amount: 150 },
    ];

    let result = initial.add_events(evs);

    assert!(result.is_err());
    let err = result.unwrap_err();
    assert!(err.to_string().contains("not enough funds"));
}

#[test]
fn test_from_events() {
    let evs = vec![
        AccountEvent::Deposit { amount: 200 },
        AccountEvent::Deposit { amount: 100 },
        AccountEvent::Withdraw { amount: 150 },
    ];

    let result = Account::from_events(evs);

    assert!(result.is_ok());
    let acc = result.unwrap();
    assert_eq!(acc.balance, 150);
    assert_eq!(acc.id, 1234);
}
