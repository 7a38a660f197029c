use std::sync::atomic::Ordering::Relaxed;

use saa::gate::{Error, Pager, State};
use saa::{pager, Gate};

#[test]
fn gate() {
    let mut gate = Gate::default();

    let mut pagers = Vec::new();
    for _ in 0..8 {
        let (result, pager) = gate.enter_sync();
        assert_eq!(result, None);
        pagers.push(pager);
    }

    assert_eq!(gate.permit(), Ok(8));

    for mut pager in pagers {
        assert_eq!(pager.poll_sync(&mut gate), Some(Ok(State::Controlled)));
    }

    gate.open();
    assert_eq!(gate.enter_sync().0, Some(Ok(State::Open)));
    assert_eq!(gate.enter_async().0, Some(Ok(State::Open)));

    gate.seal();
    assert_eq!(gate.enter_sync().0, Some(Err(Error::Sealed)));
    assert_eq!(gate.enter_async().0, Some(Err(Error::Sealed)));
}

#[test]
fn gate_state() {
    let mut gate = Gate::default();
    assert_eq!(gate.state(Relaxed), State::Controlled);
    gate.open();
    assert_eq!(gate.state(Relaxed), State::Open);
    gate.seal();
    assert_eq!(gate.state(Relaxed), State::Sealed);
}

#[test]
fn gate_reset() {
    let mut gate = Gate::default();

    assert_eq!(gate.reset(), None);

    gate.seal();

    assert_eq!(gate.reset(), Some(State::Sealed));
    assert_eq!(gate.state(Relaxed), State::Controlled);

    gate.open();

    assert_eq!(gate.reset(), Some(State::Open));
    assert_eq!(gate.state(Relaxed), State::Controlled);
    assert_eq!(gate.reset(), None);
}

#[test]
fn gate_permit() {
    let mut gate = Gate::default();
    assert_eq!(gate.permit(), Ok(0));
    let (result, mut pager) = gate.enter_sync();
    assert_eq!(result, None);
    assert_eq!(gate.permit(), Ok(1));
    assert_eq!(pager.poll_sync(&mut gate), Some(Ok(State::Controlled)));
    assert_eq!(gate.permit(), Ok(0));

    gate.open();
    assert_eq!(gate.permit(), Err(State::Open));
    assert_eq!(gate.state(Relaxed), State::Open);
    gate.seal();
    assert_eq!(gate.permit(), Err(State::Sealed));
    assert_eq!(gate.state(Relaxed), State::Sealed);
}

#[test]
fn gate_reject() {
    let mut gate = Gate::default();
    let (result, mut pager) = gate.enter_sync();
    assert_eq!(result, None);
    assert_eq!(gate.reject(), Ok(1));
    assert_eq!(pager.poll_sync(&mut gate), Some(Err(Error::Rejected)));
    assert_eq!(gate.state(Relaxed), State::Controlled);

    gate.seal();
    assert_eq!(gate.reject(), Err(State::Sealed));
    gate.open();
    assert_eq!(gate.reject(), Err(State::Open));
}

#[test]
fn gate_open() {
    let mut gate = Gate::default();
    assert_eq!(gate.state(Relaxed), State::Controlled);

    let (prev_state, count) = gate.open();

    assert_eq!(prev_state, State::Controlled);
    assert_eq!(count, 0);
    assert_eq!(gate.state(Relaxed), State::Open);
    assert_eq!(gate.open(), (State::Open, 0));
}

#[test]
fn gate_seal() {
    let mut gate = Gate::default();

    let (prev_state, count) = gate.seal();

    assert_eq!(prev_state, State::Controlled);
    assert_eq!(count, 0);
    assert_eq!(gate.state(Relaxed), State::Sealed);
}

#[test]
fn gate_seal_rejects_waiting_tasks() {
    let mut gate = Gate::default();
    let (_, mut first) = gate.enter_sync();
    let (_, mut second) = gate.enter_async();
    assert_eq!(gate.seal(), (State::Controlled, 2));
    assert_eq!(first.poll_sync(&mut gate), Some(Err(Error::Sealed)));
    assert_eq!(second.poll_async(&mut gate), Some(Err(Error::Sealed)));
}

#[test]
fn gate_register_async() {
    let mut gate = Gate::default();

    let mut pager = Pager::default();

    assert!(gate.register_async(&mut pager));

    assert_eq!(gate.open().1, 1);

    assert_eq!(pager.poll_sync(&mut gate), Some(Err(Error::WrongMode)));

    assert!(!gate.register_async(&mut pager));
    assert_eq!(pager.poll_async(&mut gate), Some(Ok(State::Open)));
    assert_eq!(gate.enter_sync().0, Some(Ok(State::Open)));
}

#[test]
fn gate_register_sync() {
    let mut gate = Gate::default();

    let mut pager = Pager::default();

    assert!(gate.register_sync(&mut pager));
    assert!(!gate.register_sync(&mut pager));
    assert!(!gate.register_async(&mut pager));

    assert_eq!(gate.permit(), Ok(1));

    assert_eq!(pager.poll_sync(&mut gate), Some(Ok(State::Controlled)));
}

#[test]
fn gate_register_pager() {
    let mut gate = Gate::default();

    let mut pager = pager::Pager::default();
    assert!(!pager.is_registered());

    assert!(gate.register_pager(&mut pager, true));
    assert!(pager.is_registered());
    assert!(pager.is_sync());

    assert_eq!(pager.try_poll(&mut gate), Err(Error::NotReady));
    assert_eq!(gate.open().1, 1);

    assert_eq!(pager.try_poll(&mut gate), Ok(State::Open));
    assert_eq!(pager.poll_sync(&mut gate), Some(Ok(State::Open)));
    assert!(!pager.is_sync());
    assert!(!pager.is_registered());

    assert_eq!(pager.poll_sync(&mut gate), Some(Err(Error::NotRegistered)));
}

#[test]
fn gate_pager_wrong_mode() {
    let mut gate = Gate::default();

    // It stays registered if it is polled synchronously by mistake.
    let mut pager = Pager::default();
    assert!(gate.register_async(&mut pager));
    assert!(!pager.is_sync());
    assert_eq!(pager.poll_sync(&mut gate), Some(Err(Error::WrongMode)));
    assert!(pager.is_registered());
    assert_eq!(pager.poll_async(&mut gate), None);

    // It does not if it is polled asynchronously by mistake; the others fail spuriously.
    let mut sync_pager = Pager::default();
    assert!(gate.register_sync(&mut sync_pager));
    assert!(sync_pager.is_sync());
    assert_eq!(sync_pager.try_poll(&mut gate), Err(Error::NotReady));
    assert_eq!(
        sync_pager.poll_async(&mut gate),
        Some(Err(Error::WrongMode))
    );
    assert!(!sync_pager.is_registered());
    assert!(!sync_pager.is_sync());
    assert_eq!(
        sync_pager.poll_async(&mut gate),
        Some(Err(Error::NotRegistered))
    );
    assert_eq!(
        pager.poll_async(&mut gate),
        Some(Err(Error::SpuriousFailure))
    );

    // Nobody fails if the result is there.
    assert!(gate.register_sync(&mut sync_pager));
    assert_eq!(gate.permit(), Ok(1));
    assert!(gate.register_async(&mut pager));
    assert_eq!(sync_pager.try_poll(&mut gate), Ok(State::Controlled));
    assert_eq!(
        sync_pager.poll_async(&mut gate),
        Some(Err(Error::WrongMode))
    );
    assert!(!sync_pager.is_registered());
    assert_eq!(pager.poll_async(&mut gate), None);
    pager.cancel(&mut gate);
    assert!(!pager.is_registered());
    assert_eq!(gate.permit(), Ok(0));

    // A pager that any primitive takes stays registered in both cases.
    let mut pager = pager::Pager::default();
    assert!(gate.register_pager(&mut pager, true));
    assert_eq!(pager.poll_async(&mut gate), Some(Err(Error::WrongMode)));
    assert!(pager.is_registered());
    assert_eq!(gate.permit(), Ok(1));
    assert_eq!(pager.poll_sync(&mut gate), Some(Ok(State::Controlled)));
}

#[test]
fn gate_pager_cancel() {
    let mut gate = Gate::default();
    let mut first = pager::Pager::default();
    let mut second = pager::Pager::default();
    assert!(gate.register_pager(&mut first, true));
    assert!(gate.register_pager(&mut second, true));
    first.cancel(&mut gate);
    assert!(!first.is_registered());
    // The other waiting tasks fail, too.
    assert_eq!(
        second.poll_sync(&mut gate),
        Some(Err(Error::SpuriousFailure))
    );
    assert_eq!(gate.state(Relaxed), State::Controlled);
    assert_eq!(gate.permit(), Ok(0));

    // Nobody fails if the task has been permitted already.
    assert!(gate.register_pager(&mut first, true));
    assert_eq!(gate.permit(), Ok(1));
    assert!(gate.register_pager(&mut second, true));
    first.cancel(&mut gate);
    assert_eq!(second.poll_sync(&mut gate), None);
    assert_eq!(gate.permit(), Ok(1));
    assert_eq!(second.poll_sync(&mut gate), Some(Ok(State::Controlled)));
}

#[test]
fn gate_close() {
    let mut gate = Gate::default();
    gate.close();
    assert_eq!(gate.state(Relaxed), State::Controlled);
    let (_, mut pager) = gate.enter_sync();
    gate.close();
    assert_eq!(pager.poll_sync(&mut gate), Some(Err(Error::Sealed)));
}

#[test]
fn gate_values() {
    let states = [State::Controlled, State::Sealed, State::Open];
    let errors = [
        Error::Rejected,
        Error::Sealed,
        Error::SpuriousFailure,
        Error::NotRegistered,
        Error::WrongMode,
        Error::Unknown,
        Error::NotReady,
    ];
    for (value, state) in states.into_iter().enumerate() {
        assert_eq!(u8::from(state), value as u8);
        assert_eq!(State::from(value), state);
        assert_eq!(State::from(value as u8), state);
        assert_eq!(Gate::from_u8(Gate::into_u8(state, None)), (state, None));
        for error in errors {
            assert_eq!(
                Gate::from_u8(Gate::into_u8(state, Some(error))),
                (state, Some(error))
            );
        }
    }
    for (index, error) in errors.into_iter().enumerate() {
        let value = (index + 1) * 4;
        assert_eq!(u8::from(error), value as u8);
        assert_eq!(Error::from(value), error);
        assert_eq!(Error::from(value as u8), error);
    }
    assert_eq!(State::from(3_u8), State::Open);
    assert_eq!(Error::from(5_u8), Error::Unknown);
    assert_eq!(
        Gate::into_u8(State::Sealed, Some(Error::Sealed)),
        9
    );
    assert!(State::Controlled < State::Sealed && State::Sealed < State::Open);
    assert!(Error::Rejected < Error::Sealed);
}
