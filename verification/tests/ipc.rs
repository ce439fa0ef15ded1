use the_rack::frames::init;
use the_rack::ipc::{
    abandon, borrow_read, borrow_write, collect, collect_received, is_awaiting_reply, recv, reply,
    send, Outcome, Pending, Received, Sent, Table, EDEAD, EFAULT, EINVAL, KERNEL, LEASE_READ,
    LEASE_WRITE, MAX_BORROW, MAX_MESSAGE,
};
use the_rack::memory::Memory;
use the_rack::notify::{post, Notifications};
use the_rack::paging;
use the_rack::tasks::{self, Kernel, Priority, State, TaskId};

const BASE: u64 = 0x4000_0000;
const SIZE: u64 = 0x20_0000;
const TEXT: u64 = 0x40_0000;
const PAGE: u64 = 0x7f_f000;

static PROGRAM: [u8; 4] = [1, 2, 3, 4];

struct World {
    k: Kernel,
    t: Table,
    n: Notifications,
}

fn world() -> World {
    let mut k = Kernel::new(
        init(BASE, SIZE, BASE + 0x4000),
        Memory::new(BASE, SIZE as usize),
        0xffff_0000_0000_0000,
        1,
        2,
    );
    tasks::init_address_spaces(&mut k);
    tasks::init(&mut k);
    World { k, t: Table::new(), n: Notifications::new() }
}

impl World {
    fn task(&mut self, name: &'static str, priority: u8) -> TaskId {
        tasks::spawn_user_program(&mut self.k, name, &PROGRAM, 0, Priority(priority))
    }

    fn run(&mut self, id: TaskId) {
        self.k.scheduler.current = id.0;
    }

    fn put(&mut self, id: TaskId, va: u64, bytes: &[u8]) {
        let root = tasks::space_root_of(&self.k.scheduler, id).unwrap();
        let pa = paging::translate(&self.k.memory, root, va).unwrap();
        self.k.memory.write(pa, bytes);
    }

    fn get(&self, id: TaskId, va: u64, len: usize) -> Vec<u8> {
        let root = tasks::space_root_of(&self.k.scheduler, id).unwrap();
        paging::read_user(&self.k.memory, root, va, len)
    }

    fn send(&mut self, target: u64, out_len: u64, reply_cap: u64, leases: (u64, u64)) -> Sent {
        send(
            &mut self.t,
            &mut self.k.scheduler,
            &mut self.k.memory,
            target,
            42,
            PAGE,
            out_len,
            PAGE + 0x200,
            reply_cap,
            leases.0,
            leases.1,
        )
    }

    fn recv(&mut self, buf: u64, cap: u64, mask: u32) -> Received {
        recv(
            &mut self.t,
            &mut self.n,
            &mut self.k.scheduler,
            &mut self.k.memory,
            buf,
            cap,
            mask,
        )
    }

    fn reply(&mut self, sender: u64, rc: u64, data: u64, len: u64) -> (u64, bool) {
        reply(&mut self.t, &mut self.k.scheduler, &mut self.k.memory, sender, rc, data, len)
    }

    fn borrow_read(&mut self, from: TaskId, index: u64, offset: u64, len: u64) -> u64 {
        borrow_read(
            &self.t,
            &self.k.scheduler,
            &mut self.k.memory,
            from.0 as u64,
            index,
            offset,
            PAGE + 0x400,
            len,
        )
    }

    fn borrow_write(&mut self, from: TaskId, index: u64, offset: u64, len: u64) -> u64 {
        borrow_write(
            &self.t,
            &self.k.scheduler,
            &mut self.k.memory,
            from.0 as u64,
            index,
            offset,
            PAGE + 0x400,
            len,
        )
    }

    fn state(&self, id: TaskId) -> State {
        self.k.scheduler.tasks[id.0].as_ref().unwrap().state
    }
}

fn refused(rc: u64) -> Sent {
    Sent::Done { rc, len: 0 }
}

/// A client waiting for a server to answer, with two regions lent: sixteen
/// bytes to read, and sixteen to write.
fn lent() -> (World, TaskId, TaskId) {
    let mut w = world();
    let server = w.task("server", Priority::NORMAL);
    let client = w.task("client", Priority::NORMAL);
    let mut table = Vec::new();
    for word in [PAGE + 0x800, 16, LEASE_READ, PAGE + 0x820, 16, LEASE_READ | LEASE_WRITE] {
        table.extend_from_slice(&word.to_le_bytes());
    }
    w.put(client, PAGE + 0x600, &table);
    w.put(client, PAGE + 0x800, b"lent to be read.");
    w.run(client);
    assert_eq!(w.send(server.0 as u64, 4, 16, (PAGE + 0x600, 2)), Sent::Wait);
    w.run(server);
    assert_eq!(
        w.recv(PAGE, 16, 0),
        Received::Done { a: client.0 as u64, b: 42, c: 4 }
    );
    (w, server, client)
}

#[test]
fn a_message_and_its_reply_survive_when_the_receiver_waits_first() {
    let mut w = world();
    let server = w.task("server", Priority::HIGH);
    let client = w.task("client", Priority::NORMAL);

    w.run(server);
    assert_eq!(w.recv(PAGE, 64, 0), Received::Wait);
    assert_eq!(w.state(server), State::Blocked);
    assert_eq!(w.t.pending[server.0], Some(Pending::RecvWait { buf: PAGE, cap: 64 }));

    w.run(client);
    w.put(client, PAGE, b"ping over the wall");
    assert_eq!(w.send(server.0 as u64, 18, 32, (0, 0)), Sent::Wait);
    assert_eq!(w.state(client), State::Blocked);
    assert_eq!(w.state(server), State::Runnable);
    assert!(is_awaiting_reply(&w.t, client));

    let got = collect_received(&mut w.t, &mut w.n, server, 0);
    assert_eq!(got, Outcome { a: client.0 as u64, b: 42, c: 18 });
    assert_eq!(w.get(server, PAGE, 18), b"ping over the wall".to_vec());

    w.run(server);
    w.put(server, PAGE + 0x100, b"pong");
    assert_eq!(w.reply(client.0 as u64, 7, PAGE + 0x100, 4), (0, false));
    assert_eq!(w.state(client), State::Runnable);
    assert!(!is_awaiting_reply(&w.t, client));
    assert_eq!(collect(&mut w.t, client), Outcome { a: 7, b: 4, c: 0 });
    assert_eq!(w.get(client, PAGE + 0x200, 4), b"pong".to_vec());
    // An outcome is collected once.
    assert_eq!(collect(&mut w.t, client), Outcome { a: 0, b: 0, c: 0 });
}

#[test]
fn a_message_and_its_reply_survive_when_the_sender_waits_first() {
    let mut w = world();
    let server = w.task("server", Priority::NORMAL);
    let client = w.task("client", Priority::HIGH);

    w.run(client);
    w.put(client, PAGE, b"ping over the wall");
    assert_eq!(w.send(server.0 as u64, 18, 32, (0, 0)), Sent::Wait);
    assert_eq!(w.state(client), State::Blocked);
    assert!(!is_awaiting_reply(&w.t, client));

    w.run(server);
    assert_eq!(
        w.recv(PAGE, 64, 0),
        Received::Done { a: client.0 as u64, b: 42, c: 18 }
    );
    assert_eq!(w.get(server, PAGE, 18), b"ping over the wall".to_vec());
    assert!(is_awaiting_reply(&w.t, client));
    w.put(server, PAGE + 0x100, b"pong");
    // The sender is the more urgent: it should have the CPU now.
    assert_eq!(w.reply(client.0 as u64, 0, PAGE + 0x100, 4), (0, true));
    assert_eq!(w.get(client, PAGE + 0x200, 4), b"pong".to_vec());
}

#[test]
fn a_long_message_is_cut_to_what_the_receiver_can_hold() {
    let mut w = world();
    let server = w.task("server", Priority::NORMAL);
    let client = w.task("client", Priority::NORMAL);
    w.put(client, PAGE, b"abcdef");
    w.run(client);
    assert_eq!(w.send(server.0 as u64, 6, 2, (0, 0)), Sent::Wait);
    w.run(server);
    assert_eq!(w.recv(PAGE, 4, 0), Received::Done { a: client.0 as u64, b: 42, c: 4 });
    assert_eq!(w.get(server, PAGE, 6), b"abcd\0\0".to_vec());
    assert_eq!(w.reply(client.0 as u64, 0, PAGE, 4), (0, false));
    assert_eq!(collect(&mut w.t, client), Outcome { a: 0, b: 2, c: 0 });
    assert_eq!(w.get(client, PAGE + 0x200, 3), b"ab\0".to_vec());
}

#[test]
fn a_send_that_makes_no_sense_is_refused() {
    let mut w = world();
    let server = w.task("server", Priority::NORMAL);
    let client = w.task("client", Priority::NORMAL);
    let to = server.0 as u64;
    w.run(client);
    assert_eq!(w.send(to, MAX_MESSAGE + 1, 0, (0, 0)), refused(EINVAL));
    assert_eq!(w.send(to, 0, MAX_MESSAGE + 1, (0, 0)), refused(EINVAL));
    assert_eq!(w.send(to, 0, 0, (PAGE, 5)), refused(EINVAL));
    assert_eq!(w.send(8, 0, 0, (0, 0)), refused(EINVAL));
    assert_eq!(w.send(client.0 as u64, 0, 0, (0, 0)), refused(EINVAL));
    assert_eq!(w.send(5, 0, 0, (0, 0)), refused(EDEAD));
    // A lease table the sender cannot read, and leases it cannot give.
    assert_eq!(w.send(to, 0, 0, (0x1000, 1)), refused(EFAULT));
    let mut table = Vec::new();
    for word in [TEXT, 4, LEASE_READ | LEASE_WRITE] {
        table.extend_from_slice(&word.to_le_bytes());
    }
    w.put(client, PAGE + 0x600, &table);
    assert_eq!(w.send(to, 0, 0, (PAGE + 0x600, 1)), refused(EFAULT));
    w.put(client, PAGE + 0x610, &LEASE_READ.to_le_bytes());
    assert_eq!(w.state(client), State::Runnable);
    assert_eq!(w.send(to, 0, 0, (PAGE + 0x600, 1)), Sent::Wait);
    assert_eq!(w.state(client), State::Blocked);
    // A task with no memory of its own has nothing to send from.
    w.run(TaskId(0));
    assert_eq!(w.send(to, 0, 0, (0, 0)), refused(EFAULT));
}

#[test]
fn a_buffer_is_checked_against_its_own_owner() {
    let mut w = world();
    let server = w.task("server", Priority::NORMAL);
    let client = w.task("client", Priority::NORMAL);
    w.run(client);
    // Readable, but not writable: the program text cannot take the reply.
    let sent = send(
        &mut w.t,
        &mut w.k.scheduler,
        &mut w.k.memory,
        server.0 as u64,
        1,
        TEXT,
        4,
        TEXT,
        4,
        0,
        0,
    );
    assert_eq!(sent, refused(EFAULT));
    w.run(server);
    assert_eq!(w.recv(TEXT, 4, 0), Received::Done { a: EFAULT, b: 0, c: 0 });
    assert_eq!(w.recv(0xffff_0000_4008_0000, 4, 0), Received::Done { a: EFAULT, b: 0, c: 0 });
    assert_eq!(w.recv(PAGE, MAX_MESSAGE + 1, 0), Received::Done { a: EINVAL, b: 0, c: 0 });
    w.run(TaskId(0));
    assert_eq!(w.recv(PAGE, 4, 0), Received::Done { a: EFAULT, b: 0, c: 0 });
}

#[test]
fn the_most_urgent_sender_is_served_first() {
    let mut w = world();
    let server = w.task("server", Priority::NORMAL);
    let slow = w.task("slow", Priority::LOW);
    let first = w.task("first", Priority::HIGH);
    let second = w.task("second", Priority::HIGH);
    for id in [slow, second, first] {
        w.run(id);
        assert_eq!(w.send(server.0 as u64, 0, 0, (0, 0)), Sent::Wait);
    }
    w.run(server);
    for id in [first, second, slow] {
        assert_eq!(w.recv(PAGE, 0, 0), Received::Done { a: id.0 as u64, b: 42, c: 0 });
    }
    assert_eq!(w.recv(PAGE, 0, 0), Received::Wait);
}

#[test]
fn a_forged_reply_releases_nobody() {
    let mut w = world();
    let server = w.task("server", Priority::NORMAL);
    let client = w.task("client", Priority::NORMAL);
    let forger = w.task("forger", Priority::NORMAL);
    w.run(client);
    assert_eq!(w.send(server.0 as u64, 0, 8, (0, 0)), Sent::Wait);
    w.run(server);
    // Not collected yet, so not even the server may answer.
    assert_eq!(w.reply(client.0 as u64, 0, PAGE, 0), (EINVAL, false));
    assert_eq!(w.recv(PAGE, 8, 0), Received::Done { a: client.0 as u64, b: 42, c: 0 });
    w.run(forger);
    assert_eq!(w.reply(client.0 as u64, 0, PAGE, 4), (EINVAL, false));
    assert!(is_awaiting_reply(&w.t, client));
    assert_eq!(w.state(client), State::Blocked);
    w.run(server);
    assert_eq!(w.reply(client.0 as u64, 0, PAGE, MAX_MESSAGE + 1), (EINVAL, false));
    assert_eq!(w.reply(8, 0, PAGE, 0), (EINVAL, false));
    assert_eq!(w.reply(client.0 as u64, 0, 0x1000, 4), (EFAULT, false));
    assert!(is_awaiting_reply(&w.t, client));
    assert_eq!(w.reply(client.0 as u64, 0, PAGE, 4), (0, false));
    // Answered once is answered.
    assert_eq!(w.reply(client.0 as u64, 0, PAGE, 4), (EINVAL, false));
}

#[test]
fn a_sender_learns_that_its_target_is_gone() {
    let mut w = world();
    let server = w.task("server", Priority::NORMAL);
    let served = w.task("served", Priority::NORMAL);
    let queued = w.task("queued", Priority::LOW);
    let other = w.task("other", Priority::NORMAL);
    for id in [served, queued] {
        w.run(id);
        assert_eq!(w.send(server.0 as u64, 0, 0, (0, 0)), Sent::Wait);
    }
    w.run(other);
    assert_eq!(w.send(served.0 as u64, 0, 0, (0, 0)), Sent::Wait);
    w.run(server);
    assert_eq!(w.recv(PAGE, 0, 0), Received::Done { a: served.0 as u64, b: 42, c: 0 });
    tasks::exit_current(&mut w.k, &mut w.t, 0);
    for id in [served, queued] {
        assert_eq!(w.state(id), State::Runnable);
        assert_eq!(collect(&mut w.t, id), Outcome { a: EDEAD, b: 0, c: 0 });
    }
    assert_eq!(w.state(other), State::Blocked);
    w.run(served);
    assert_eq!(w.send(server.0 as u64, 0, 0, (0, 0)), refused(EDEAD));
}

#[test]
fn an_answer_already_given_outlives_the_one_who_gave_it() {
    let mut w = world();
    let server = w.task("server", Priority::NORMAL);
    let client = w.task("client", Priority::NORMAL);
    w.run(client);
    assert_eq!(w.send(server.0 as u64, 0, 8, (0, 0)), Sent::Wait);
    w.run(server);
    assert_eq!(w.recv(PAGE, 0, 0), Received::Done { a: client.0 as u64, b: 42, c: 0 });
    assert_eq!(w.reply(client.0 as u64, 9, PAGE, 2), (0, false));
    abandon(&mut w.t, &mut w.k.scheduler, server);
    assert_eq!(collect(&mut w.t, client), Outcome { a: 9, b: 2, c: 0 });
}

#[test]
fn a_lease_is_read_and_written_through_the_kernel() {
    let (mut w, server, client) = lent();
    assert_eq!(w.borrow_read(client, 0, 5, 11), 0);
    assert_eq!(w.get(server, PAGE + 0x400, 11), b"to be read.".to_vec());
    w.put(server, PAGE + 0x400, b"written");
    assert_eq!(w.borrow_write(client, 1, 9, 7), 0);
    assert_eq!(w.get(client, PAGE + 0x820, 16), b"\0\0\0\0\0\0\0\0\0written".to_vec());
    // Nothing at the very end of a lease is still inside it.
    assert_eq!(w.borrow_read(client, 0, 16, 0), 0);
}

#[test]
fn a_borrow_stays_within_what_was_lent() {
    let (mut w, _server, client) = lent();
    assert_eq!(w.borrow_read(client, 0, 8, 9), EFAULT);
    assert_eq!(w.borrow_read(client, 0, 17, 0), EFAULT);
    assert_eq!(w.borrow_read(client, 0, u64::MAX, 2), EFAULT);
    assert_eq!(w.borrow_write(client, 0, 0, 4), EFAULT);
    assert_eq!(w.borrow_read(client, 2, 0, 1), EINVAL);
    assert_eq!(w.borrow_read(client, 0, 0, MAX_BORROW + 1), EINVAL);
    assert_eq!(w.borrow_read(TaskId(8), 0, 0, 1), EINVAL);
    assert_eq!(w.get(client, PAGE + 0x800, 16), b"lent to be read.".to_vec());
    // The borrower's own buffer is checked as well.
    let rc = borrow_read(
        &w.t,
        &w.k.scheduler,
        &mut w.k.memory,
        client.0 as u64,
        0,
        0,
        TEXT,
        4,
    );
    assert_eq!(rc, EFAULT);
}

#[test]
fn a_lease_ends_with_the_reply() {
    let (mut w, server, client) = lent();
    let stranger = w.task("stranger", Priority::NORMAL);
    w.run(stranger);
    assert_eq!(w.borrow_read(client, 0, 0, 1), EINVAL);
    w.run(server);
    assert_eq!(w.borrow_read(client, 0, 0, 1), 0);
    assert_eq!(w.reply(client.0 as u64, 0, PAGE, 0), (0, false));
    assert_eq!(w.borrow_read(client, 0, 0, 1), EINVAL);
    assert_eq!(w.borrow_write(client, 1, 0, 1), EINVAL);
}

#[test]
fn a_notification_is_received_before_a_message() {
    let mut w = world();
    let server = w.task("server", Priority::NORMAL);
    let client = w.task("client", Priority::NORMAL);
    w.run(client);
    assert_eq!(w.send(server.0 as u64, 0, 0, (0, 0)), Sent::Wait);
    w.run(server);
    post(&mut w.n, &mut w.k.scheduler, server, 0b0110);
    assert_eq!(w.recv(PAGE, 0, 0b0010), Received::Done { a: KERNEL, b: 0b0010, c: 0 });
    // What was not asked about is still there.
    assert_eq!(
        w.recv(PAGE, 0, 0b0001),
        Received::Done { a: client.0 as u64, b: 42, c: 0 }
    );
    assert_eq!(w.recv(PAGE, 0, 0b0100), Received::Done { a: KERNEL, b: 0b0100, c: 0 });
}

#[test]
fn only_a_wanted_notification_wakes_a_receiver() {
    let mut w = world();
    let driver = w.task("driver", Priority::NORMAL);
    w.run(driver);
    assert_eq!(w.recv(PAGE, 16, 0b0001), Received::Wait);
    post(&mut w.n, &mut w.k.scheduler, driver, 0b0010);
    assert_eq!(w.state(driver), State::Blocked);
    assert!(!w.k.scheduler.need_resched);
    post(&mut w.n, &mut w.k.scheduler, driver, 0b0001);
    assert_eq!(w.state(driver), State::Runnable);
    assert!(w.k.scheduler.need_resched);
    let got = collect_received(&mut w.t, &mut w.n, driver, 0b0001);
    assert_eq!(got, Outcome { a: KERNEL, b: 1, c: 0 });
    assert_eq!(w.t.pending[driver.0], None);
    assert_eq!(w.n.wanted[driver.0], 0);
    assert_eq!(w.n.posted[driver.0], 0b0010);
}

#[test]
fn a_sender_whose_buffer_is_gone_gets_the_error_itself() {
    let mut w = world();
    let server = w.task("server", Priority::NORMAL);
    let slow = w.task("slow", Priority::LOW);
    let good = w.task("good", Priority::LOW);
    let fast = w.task("fast", Priority::HIGH);
    for id in [slow, good, fast] {
        w.run(id);
        assert_eq!(w.send(server.0 as u64, 4, 0, (0, 0)), Sent::Wait);
    }
    // As if the pages had gone from under them while they waited.
    for id in [slow, fast] {
        let Some(Pending::SendWait(mut message)) = w.t.pending[id.0] else {
            panic!("not sending")
        };
        message.out = 0x1000;
        w.t.pending[id.0] = Some(Pending::SendWait(message));
    }
    w.run(server);
    // The more urgent of the two should have the CPU now that it is released.
    assert_eq!(w.recv(PAGE, 4, 0), Received::Again);
    assert_eq!(w.state(fast), State::Runnable);
    assert_eq!(collect(&mut w.t, fast), Outcome { a: EFAULT, b: 0, c: 0 });
    // The other is passed over, and the next in line is served.
    assert_eq!(w.recv(PAGE, 4, 0), Received::Done { a: good.0 as u64, b: 42, c: 4 });
    assert_eq!(w.state(slow), State::Runnable);
    assert_eq!(collect(&mut w.t, slow), Outcome { a: EFAULT, b: 0, c: 0 });
}
